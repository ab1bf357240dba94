//! The retention reaper: removes every pixel older than the retention window.

use vstd::prelude::*;
use spacetimedb::Identity;
use crate::canvas::{lemma_cell_at, position, Canvas, Cell, Coord, Pixel};
use crate::clock::{same_identity, timestamp_minus};

verus! {

/// How long a pixel lives after its last write: 30 days, in microseconds.
pub const PIXEL_LIFETIME_MICROS: i64 = 2_592_000_000_000;

/// Why a sweep was refused.
#[derive(Debug, PartialEq, Eq, Structural)]
pub enum SweepError {
    /// The sweep was asked for by someone other than the scheduler.
    NotScheduler,
}

impl SweepError {
    /// The text that callers are given for the refusal.
    pub fn message(&self) -> (r: String)
        ensures
            r@ == "Reducer `scheduled` may not be invoked by clients, only via scheduling."@,
    {
        match self {
            SweepError::NotScheduler => {
                "Reducer `scheduled` may not be invoked by clients, only via scheduling.".to_string()
            },
        }
    }
}

/// The coordinates, in order, of the pixels of `s` last written before
/// `cutoff`.
pub open spec fn stale_keys(s: Seq<Pixel>, cutoff: i64) -> Seq<Coord> {
    s.filter_map(|p: Pixel| if p.timestamp < cutoff { Some(p.key()) } else { None })
}

/// The canvas `m` after each coordinate of `ks` whose pixel was last written
/// before `cutoff` has been removed.
pub open spec fn evicted(m: Map<Coord, Cell>, ks: Set<Coord>, cutoff: int) -> Map<Coord, Cell> {
    Map::new(|k: Coord| m.contains_key(k) && !(ks.contains(k) && m[k].1 < cutoff), |k: Coord| m[k])
}

/// The pixels of `m` last written at `cutoff` or later.
pub open spec fn retained(m: Map<Coord, Cell>, cutoff: int) -> Map<Coord, Cell> {
    Map::new(|k: Coord| m.contains_key(k) && m[k].1 >= cutoff, |k: Coord| m[k])
}

proof fn lemma_stale_keys_contains(s: Seq<Pixel>, cutoff: i64, j: int)
    requires
        0 <= j < s.len(),
        s[j].timestamp < cutoff,
    ensures
        stale_keys(s, cutoff).contains(s[j].key()),
    decreases s.len(),
{
    let rest = stale_keys(s.drop_last(), cutoff);
    if j == s.len() - 1 {
        assert(stale_keys(s, cutoff) == rest + seq![s[j].key()]);
        assert(stale_keys(s, cutoff)[rest.len() as int] == s[j].key());
    } else {
        assert(s.drop_last()[j] == s[j]);
        lemma_stale_keys_contains(s.drop_last(), cutoff, j);
        let i = choose|i: int| 0 <= i < rest.len() && rest[i] == s[j].key();
        if s.last().timestamp < cutoff {
            assert(stale_keys(s, cutoff) == rest + seq![s.last().key()]);
            assert(stale_keys(s, cutoff)[i] == rest[i]);
        }
    }
}

/// The coordinates of the pixels of `snapshot` last written before `cutoff`,
/// in the order of `snapshot`.
pub fn stale_pixels(snapshot: &Vec<Pixel>, cutoff: i64) -> (r: Vec<Coord>)
    ensures
        r@ == stale_keys(snapshot@, cutoff),
{
    let mut out: Vec<Coord> = Vec::new();
    let mut i: usize = 0;
    while i < snapshot.len()
        invariant
            i <= snapshot@.len(),
            out@ == stale_keys(snapshot@.subrange(0, i as int), cutoff),
        decreases snapshot@.len() - i,
    {
        let ghost prefix = snapshot@.subrange(0, i as int + 1);
        assert(prefix.drop_last() == snapshot@.subrange(0, i as int));
        assert(prefix.last() == snapshot@[i as int]);
        if snapshot[i].timestamp < cutoff {
            out.push((snapshot[i].x, snapshot[i].y));
        }
        i = i + 1;
    }
    assert(snapshot@.subrange(0, snapshot@.len() as int) == snapshot@);
    out
}

/// Removes, of the pixels at `candidates`, those last written before
/// `cutoff`, reading each write time at the moment of removal. Returns how
/// many were removed.
pub fn evict(canvas: &mut Canvas, candidates: &Vec<Coord>, cutoff: i64) -> (r: usize)
    requires
        old(canvas).wf(),
    ensures
        final(canvas).wf(),
        final(canvas).cells() == evicted(old(canvas).cells(), candidates@.to_set(), cutoff as int),
        r == old(canvas).cells().len() - final(canvas).cells().len(),
{
    let ghost start = canvas.cells();
    proof {
        canvas.lemma_finite();
    }
    let total = canvas.len();
    let mut removed: usize = 0;
    let mut i: usize = 0;
    assert(evicted(start, candidates@.subrange(0, 0).to_set(), cutoff as int) =~= start);
    while i < candidates.len()
        invariant
            canvas.wf(),
            i <= candidates@.len(),
            total == start.len(),
            canvas.cells() == evicted(start, candidates@.subrange(0, i as int).to_set(), cutoff as int),
            removed == start.len() - canvas.cells().len(),
        decreases candidates@.len() - i,
    {
        let ghost here = canvas.cells();
        proof {
            canvas.lemma_finite();
        }
        let (x, y) = candidates[i];
        let gone = canvas.delete_if_older(x, y, cutoff);
        proof {
            let before = candidates@.subrange(0, i as int).to_set();
            let after = candidates@.subrange(0, i as int + 1).to_set();
            assert(candidates@.subrange(0, i as int + 1) == candidates@.subrange(0, i as int).push((x, y)));
            let pre = candidates@.subrange(0, i as int);
            let post = candidates@.subrange(0, i as int + 1);
            assert forall|k: Coord| after.contains(k) == before.insert((x, y)).contains(k) by {
                if post.contains(k) {
                    let j = choose|j: int| 0 <= j < post.len() && post[j] == k;
                    if j < i {
                        assert(pre[j] == k);
                    }
                }
                if pre.contains(k) {
                    let j = choose|j: int| 0 <= j < pre.len() && pre[j] == k;
                    assert(post[j] == k);
                }
                if k == (x, y) {
                    assert(post[i as int] == k);
                }
            }
            assert(after =~= before.insert((x, y)));
            assert(canvas.cells() =~= evicted(start, after, cutoff as int));
            if gone {
                assert(here.dom().contains((x, y)));
            }
        }
        if gone {
            removed = removed + 1;
        }
        i = i + 1;
    }
    assert(candidates@.subrange(0, candidates@.len() as int) == candidates@);
    removed
}

/// One sweep at time `now`: removes every pixel last written more than
/// `retention` microseconds before `now`, and returns how many it removed.
pub fn sweep(canvas: &mut Canvas, now: i64, retention: i64) -> (r: usize)
    requires
        old(canvas).wf(),
        retention >= 0,
    ensures
        final(canvas).wf(),
        final(canvas).cells() == retained(old(canvas).cells(), now - retention),
        r == old(canvas).cells().len() - final(canvas).cells().len(),
{
    match timestamp_minus(now, retention) {
        None => {
            assert(retained(canvas.cells(), now - retention) =~= canvas.cells());
            0
        },
        Some(cutoff) => {
            let snapshot = canvas.all();
            let candidates = stale_pixels(&snapshot, cutoff);
            let ghost m = canvas.cells();
            proof {
                let s = snapshot@;
                assert forall|k: Coord| #[trigger] m.contains_key(k) && m[k].1 < cutoff implies
                    candidates@.to_set().contains(k) by {
                    let j = position(s, k);
                    lemma_cell_at(s, j);
                    lemma_stale_keys_contains(s, cutoff, j);
                }
                assert(evicted(m, candidates@.to_set(), cutoff as int) =~= retained(m, now - retention));
            }
            evict(canvas, &candidates, cutoff)
        },
    }
}

/// The scheduled sweep. Only the scheduler's own identity may ask for it;
/// anyone else is refused and the canvas stays as it was. Otherwise every
/// pixel older than the retention window is removed, and the count of
/// removed pixels returned.
pub fn cleanup_old_pixels(
    canvas: &mut Canvas,
    caller: &Identity,
    scheduler: &Identity,
    now: i64,
) -> (r: Result<usize, SweepError>)
    requires
        old(canvas).wf(),
    ensures
        final(canvas).wf(),
        r is Err <==> *caller != *scheduler,
        r matches Err(e) ==> e == SweepError::NotScheduler && final(canvas).cells() == old(canvas).cells(),
        r matches Ok(n) ==> final(canvas).cells() == retained(old(canvas).cells(), now - PIXEL_LIFETIME_MICROS)
            && n == old(canvas).cells().len() - final(canvas).cells().len(),
{
    if !same_identity(caller, scheduler) {
        return Err(SweepError::NotScheduler);
    }
    Ok(sweep(canvas, now, PIXEL_LIFETIME_MICROS))
}

/// A pixel whose retention ran out before a sweep's time is gone after that
/// sweep.
pub proof fn lemma_bounded_staleness(m: Map<Coord, Cell>, now: i64, retention: i64, k: Coord)
    requires
        m.contains_key(k),
        now > m[k].1 + retention,
    ensures
        !retained(m, now - retention).contains_key(k),
{
}

/// A pixel written at or after a sweep's time, hence after the sweep picked
/// out its candidates from the canvas `m`, survives the sweep's removals,
/// whatever the candidates were.
pub proof fn lemma_no_premature_eviction(
    m: Map<Coord, Cell>,
    candidates: Set<Coord>,
    now: i64,
    retention: i64,
    k: Coord,
    color: Seq<char>,
    t: i64,
)
    requires
        retention >= 0,
        t >= now,
    ensures
        evicted(m.insert(k, (color, t)), candidates, now - retention).contains_key(k),
        evicted(m.insert(k, (color, t)), candidates, now - retention)[k] == (color, t),
{
}

} // verus!
