//! The canvas store: at most one pixel per coordinate, last write wins.

use vstd::prelude::*;

verus! {

/// A coordinate of the canvas, the identity of a pixel.
pub type Coord = (i32, i32);

/// What the canvas holds at a coordinate: the color and the time of the last
/// write, in microseconds since the Unix epoch.
pub type Cell = (Seq<char>, i64);

/// One occupied cell of the canvas.
pub struct Pixel {
    pub x: i32,
    pub y: i32,
    pub color: String,
    pub timestamp: i64,
}

impl Pixel {
    pub open spec fn key(&self) -> Coord {
        (self.x, self.y)
    }

    pub open spec fn cell(&self) -> Cell {
        (self.color@, self.timestamp)
    }

    /// A copy of the pixel.
    pub fn duplicate(&self) -> (r: Pixel)
        ensures
            r.key() == self.key(),
            r.cell() == self.cell(),
    {
        Pixel { x: self.x, y: self.y, color: self.color.clone(), timestamp: self.timestamp }
    }
}

/// No two pixels of `s` share a coordinate.
pub open spec fn keys_unique(s: Seq<Pixel>) -> bool {
    forall|i: int, j: int|
        0 <= i < s.len() && 0 <= j < s.len() && i != j ==> #[trigger] s[i].key() != #[trigger] s[j].key()
}

/// Some pixel of `s` stands at `k`.
pub open spec fn occupies(s: Seq<Pixel>, k: Coord) -> bool {
    exists|i: int| 0 <= i < s.len() && #[trigger] s[i].key() == k
}

/// The position in `s` of a pixel at `k`.
pub open spec fn position(s: Seq<Pixel>, k: Coord) -> int {
    choose|i: int| 0 <= i < s.len() && #[trigger] s[i].key() == k
}

/// The canvas that the pixels of `s` describe, by coordinate.
pub open spec fn cells_of(s: Seq<Pixel>) -> Map<Coord, Cell> {
    Map::new(|k: Coord| occupies(s, k), |k: Coord| s[position(s, k)].cell())
}

/// With unique keys, the pixel at position `i` is the one that the canvas
/// shows at its coordinate.
pub proof fn lemma_cell_at(s: Seq<Pixel>, i: int)
    requires
        keys_unique(s),
        0 <= i < s.len(),
    ensures
        cells_of(s).contains_key(s[i].key()),
        position(s, s[i].key()) == i,
        cells_of(s)[s[i].key()] == s[i].cell(),
{
    assert(occupies(s, s[i].key()));
}

/// The shared canvas.
pub struct Canvas {
    pixels: Vec<Pixel>,
}

impl Canvas {
    /// The canvas as a map from coordinate to color and last write time.
    pub closed spec fn cells(&self) -> Map<Coord, Cell> {
        cells_of(self.pixels@)
    }

    /// At most one pixel per coordinate.
    pub closed spec fn wf(&self) -> bool {
        keys_unique(self.pixels@)
    }

    /// An empty canvas.
    pub fn new() -> (r: Canvas)
        ensures
            r.wf(),
            r.cells() == Map::<Coord, Cell>::empty(),
    {
        let r = Canvas { pixels: Vec::new() };
        assert(r.cells() =~= Map::<Coord, Cell>::empty());
        r
    }

    /// The position of the pixel at `(x, y)`, if there is one.
    fn find(&self, x: i32, y: i32) -> (r: Option<usize>)
        requires
            self.wf(),
        ensures
            r is None <==> !self.cells().contains_key((x, y)),
            r matches Some(i) ==> i < self.pixels@.len() && self.pixels@[i as int].key() == (x, y),
    {
        let mut i: usize = 0;
        while i < self.pixels.len()
            invariant
                self.wf(),
                i <= self.pixels@.len(),
                forall|j: int| 0 <= j < i ==> #[trigger] self.pixels@[j].key() != (x, y),
            decreases self.pixels@.len() - i,
        {
            if self.pixels[i].x == x && self.pixels[i].y == y {
                proof {
                    lemma_cell_at(self.pixels@, i as int);
                }
                return Some(i);
            }
            i = i + 1;
        }
        None
    }

    /// The number of pixels on the canvas.
    pub fn len(&self) -> (r: usize)
        requires
            self.wf(),
        ensures
            r == self.cells().len(),
    {
        proof {
            self.lemma_len();
        }
        self.pixels.len()
    }

    /// The color and last write time at `(x, y)`, or `None` where the cell
    /// is empty.
    pub fn get(&self, x: i32, y: i32) -> (r: Option<(String, i64)>)
        requires
            self.wf(),
        ensures
            r is None <==> !self.cells().contains_key((x, y)),
            r matches Some(c) ==> (c.0@, c.1) == self.cells()[(x, y)],
    {
        match self.find(x, y) {
            None => None,
            Some(i) => {
                proof {
                    lemma_cell_at(self.pixels@, i as int);
                }
                Some((self.pixels[i].color.clone(), self.pixels[i].timestamp))
            },
        }
    }

    /// Removes the pixel at position `i`.
    fn remove_at(&mut self, i: usize)
        requires
            old(self).wf(),
            i < old(self).pixels@.len(),
        ensures
            final(self).wf(),
            final(self).cells() == old(self).cells().remove(old(self).pixels@[i as int].key()),
    {
        let ghost before = self.pixels@;
        let ghost gone = before[i as int].key();
        self.pixels.remove(i);
        proof {
            let s = self.pixels@;
            let ii = i as int;
            assert forall|j: int| 0 <= j < s.len() implies #[trigger] s[j] == before[if j < ii { j } else { j + 1 }] by {}
            assert(keys_unique(s)) by {
                assert forall|a: int, b: int|
                    0 <= a < s.len() && 0 <= b < s.len() && a != b implies
                    #[trigger] s[a].key() != #[trigger] s[b].key() by {
                    let a0 = if a < ii { a } else { a + 1 };
                    let b0 = if b < ii { b } else { b + 1 };
                    assert(s[a] == before[a0] && s[b] == before[b0]);
                }
            }
            assert forall|k: Coord| occupies(s, k) == (occupies(before, k) && k != gone) by {
                if occupies(before, k) && k != gone {
                    let j = position(before, k);
                    let j1 = if j < ii { j } else { j - 1 };
                    assert(s[j1] == before[j]);
                }
                if occupies(s, k) {
                    let j = position(s, k);
                    let j0 = if j < ii { j } else { j + 1 };
                    assert(s[j] == before[j0]);
                    assert(before[j0].key() == k);
                }
            }
            assert forall|k: Coord| #[trigger] occupies(s, k) implies
                cells_of(s)[k] == cells_of(before)[k] by {
                let j = position(s, k);
                let j0 = if j < ii { j } else { j + 1 };
                assert(s[j] == before[j0]);
                lemma_cell_at(s, j);
                lemma_cell_at(before, j0);
            }
            assert(cells_of(s) =~= cells_of(before).remove(gone));
        }
    }

    /// Removes the pixel at `(x, y)`; an empty cell stays empty.
    pub fn delete(&mut self, x: i32, y: i32)
        requires
            old(self).wf(),
        ensures
            final(self).wf(),
            final(self).cells() == old(self).cells().remove((x, y)),
    {
        match self.find(x, y) {
            Some(i) => {
                self.remove_at(i);
            },
            None => {
                assert(self.cells().remove((x, y)) =~= self.cells());
            },
        }
    }

    /// Removes the pixel at `(x, y)` if it was last written before `cutoff`,
    /// and tells whether it did. The write time is read at the moment of
    /// removal, so a pixel written since `(x, y)` was picked out survives.
    pub fn delete_if_older(&mut self, x: i32, y: i32, cutoff: i64) -> (r: bool)
        requires
            old(self).wf(),
        ensures
            final(self).wf(),
            r == (old(self).cells().contains_key((x, y)) && old(self).cells()[(x, y)].1 < cutoff),
            final(self).cells() == if r {
                old(self).cells().remove((x, y))
            } else {
                old(self).cells()
            },
    {
        match self.find(x, y) {
            Some(i) => {
                proof {
                    lemma_cell_at(self.pixels@, i as int);
                }
                if self.pixels[i].timestamp < cutoff {
                    self.remove_at(i);
                    true
                } else {
                    false
                }
            },
            None => false,
        }
    }

    /// Every pixel of the canvas, each once, as it stands now.
    pub fn all(&self) -> (r: Vec<Pixel>)
        requires
            self.wf(),
        ensures
            keys_unique(r@),
            cells_of(r@) == self.cells(),
            r@.len() == self.cells().len(),
    {
        let mut out: Vec<Pixel> = Vec::new();
        let mut i: usize = 0;
        while i < self.pixels.len()
            invariant
                self.wf(),
                i <= self.pixels@.len(),
                out@.len() == i,
                forall|j: int| 0 <= j < i ==> (#[trigger] out@[j]).key() == self.pixels@[j].key()
                    && out@[j].cell() == self.pixels@[j].cell(),
            decreases self.pixels@.len() - i,
        {
            let p = self.pixels[i].duplicate();
            out.push(p);
            i = i + 1;
        }
        proof {
            let s = self.pixels@;
            let o = out@;
            assert forall|j: int| 0 <= j < o.len() implies #[trigger] o[j].key() == s[j].key()
                && o[j].cell() == s[j].cell() by {}
            assert forall|k: Coord| occupies(o, k) == occupies(s, k) by {
                if occupies(o, k) {
                    let j = position(o, k);
                    assert(s[j].key() == k);
                }
                if occupies(s, k) {
                    let j = position(s, k);
                    assert(o[j].key() == k);
                }
            }
            assert forall|k: Coord| #[trigger] occupies(o, k) implies
                cells_of(o)[k] == cells_of(s)[k] by {
                let j = position(o, k);
                lemma_cell_at(s, j);
                lemma_cell_at(o, j);
            }
            assert(cells_of(o) =~= cells_of(s));
            self.lemma_len();
        }
        out
    }

    /// A canvas holds finitely many pixels.
    pub proof fn lemma_finite(&self)
        requires
            self.wf(),
        ensures
            self.cells().dom().finite(),
    {
        self.lemma_len();
    }

    proof fn lemma_len(&self)
        requires
            self.wf(),
        ensures
            self.cells().dom().finite(),
            self.cells().len() == self.pixels@.len(),
    {
        let s = self.pixels@;
        let ks = s.map_values(|p: Pixel| p.key());
        assert(ks.no_duplicates()) by {
            assert forall|i: int, j: int|
                0 <= i < ks.len() && 0 <= j < ks.len() && i != j implies ks[i] != ks[j] by {
                assert(ks[i] == s[i].key() && ks[j] == s[j].key());
            }
        }
        ks.unique_seq_to_set();
        vstd::seq_lib::seq_to_set_is_finite(ks);
        assert forall|k: Coord| ks.to_set().contains(k) == self.cells().dom().contains(k) by {
            if ks.contains(k) {
                let i = choose|i: int| 0 <= i < ks.len() && ks[i] == k;
                assert(s[i].key() == k);
            }
            if occupies(s, k) {
                let i = position(s, k);
                assert(ks[i] == k);
            }
        }
        assert(ks.to_set() =~= self.cells().dom());
    }
}

/// Writes `color` at `(x, y)` with write time `now`, replacing whatever
/// stood there. The write time is refreshed even where the color stays the
/// same.
pub fn set_pixel(canvas: &mut Canvas, x: i32, y: i32, color: String, now: i64)
    requires
        old(canvas).wf(),
    ensures
        final(canvas).wf(),
        final(canvas).cells() == old(canvas).cells().insert((x, y), (color@, now)),
{
    let ghost before = canvas.pixels@;
    let p = Pixel { x, y, color, timestamp: now };
    match canvas.find(x, y) {
        Some(i) => {
            canvas.pixels.set(i, p);
            proof {
                let s = canvas.pixels@;
                assert(keys_unique(s)) by {
                    assert forall|a: int, b: int|
                        0 <= a < s.len() && 0 <= b < s.len() && a != b implies
                        #[trigger] s[a].key() != #[trigger] s[b].key() by {
                        assert(before[i as int].key() == s[i as int].key());
                        if a != i && b != i {
                            assert(s[a] == before[a] && s[b] == before[b]);
                        }
                    }
                }
                assert forall|k: Coord| occupies(s, k) == occupies(before, k) by {
                    if occupies(before, k) {
                        let j = position(before, k);
                        assert(s[j].key() == k);
                    }
                    if occupies(s, k) {
                        let j = position(s, k);
                        assert(before[j].key() == k);
                    }
                }
                assert forall|k: Coord| #[trigger] occupies(s, k) && k != (x, y) implies
                    cells_of(s)[k] == cells_of(before)[k] by {
                    let j = position(s, k);
                    assert(before[j] == s[j]);
                    lemma_cell_at(s, j);
                    lemma_cell_at(before, j);
                }
                lemma_cell_at(s, i as int);
                assert(cells_of(s) =~= cells_of(before).insert((x, y), (p.color@, now)));
            }
        },
        None => {
            canvas.pixels.push(p);
            proof {
                let s = canvas.pixels@;
                let n = before.len() as int;
                assert(keys_unique(s)) by {
                    assert forall|a: int, b: int|
                        0 <= a < s.len() && 0 <= b < s.len() && a != b implies
                        #[trigger] s[a].key() != #[trigger] s[b].key() by {
                        if a != n && b != n {
                            assert(s[a] == before[a] && s[b] == before[b]);
                        } else if a == n {
                            assert(s[b] == before[b]);
                            assert(!occupies(before, (x, y)));
                        } else {
                            assert(s[a] == before[a]);
                            assert(!occupies(before, (x, y)));
                        }
                    }
                }
                assert forall|k: Coord| k != (x, y) implies
                    occupies(s, k) == occupies(before, k) by {
                    if occupies(before, k) {
                        let j = position(before, k);
                        assert(s[j].key() == k);
                    }
                    if occupies(s, k) {
                        let j = position(s, k);
                        assert(before[j].key() == k);
                    }
                }
                assert forall|k: Coord| #[trigger] occupies(s, k) && k != (x, y) implies
                    cells_of(s)[k] == cells_of(before)[k] by {
                    let j = position(s, k);
                    assert(before[j] == s[j]);
                    lemma_cell_at(s, j);
                    lemma_cell_at(before, j);
                }
                lemma_cell_at(s, n);
                assert(cells_of(s) =~= cells_of(before).insert((x, y), (p.color@, now)));
            }
        },
    }
}

/// Last write wins: after two writes at the same coordinate the canvas holds
/// the second color with the second write time, exactly as if the first write
/// had never happened.
pub proof fn lemma_last_write_wins(m: Map<Coord, Cell>, k: Coord, c1: Seq<char>, t1: i64, c2: Seq<char>, t2: i64)
    ensures
        m.insert(k, (c1, t1)).insert(k, (c2, t2)).contains_key(k),
        m.insert(k, (c1, t1)).insert(k, (c2, t2))[k] == (c2, t2),
        m.insert(k, (c1, t1)).insert(k, (c2, t2)) == m.insert(k, (c2, t2)),
{
    assert(m.insert(k, (c1, t1)).insert(k, (c2, t2)) =~= m.insert(k, (c2, t2)));
}

/// A write at one coordinate leaves every other coordinate as it was.
pub proof fn lemma_key_isolation(m: Map<Coord, Cell>, k1: Coord, c: Seq<char>, t: i64, k2: Coord)
    requires
        k1 != k2,
    ensures
        m.insert(k1, (c, t)).contains_key(k2) == m.contains_key(k2),
        m.contains_key(k2) ==> m.insert(k1, (c, t))[k2] == m[k2],
{
}

/// Deleting twice is deleting once, and deleting an empty cell changes nothing.
pub proof fn lemma_delete_idempotent(m: Map<Coord, Cell>, k: Coord)
    ensures
        m.remove(k).remove(k) == m.remove(k),
        !m.contains_key(k) ==> m.remove(k) == m,
{
    assert(m.remove(k).remove(k) =~= m.remove(k));
    if !m.contains_key(k) {
        assert(m.remove(k) =~= m);
    }
}

} // verus!
