use pixel_place::{set_pixel, Canvas};

fn cell(c: &Canvas, x: i32, y: i32) -> Option<(String, i64)> {
    c.get(x, y)
}

#[test]
fn later_write_replaces_earlier() {
    let mut c = Canvas::new();
    set_pixel(&mut c, 3, 4, "red".to_string(), 0);
    set_pixel(&mut c, 3, 4, "blue".to_string(), 5);
    let all = c.all();
    assert_eq!(all.len(), 1);
    assert_eq!((all[0].x, all[0].y), (3, 4));
    assert_eq!(all[0].color, "blue");
    assert_eq!(all[0].timestamp, 5);
    assert_eq!(cell(&c, 3, 4), Some(("blue".to_string(), 5)));
    assert_eq!(c.len(), 1);
}

#[test]
fn rewrite_with_same_color_refreshes_time() {
    let mut c = Canvas::new();
    set_pixel(&mut c, 0, 0, "red".to_string(), 10);
    set_pixel(&mut c, 0, 0, "red".to_string(), 20);
    assert_eq!(cell(&c, 0, 0), Some(("red".to_string(), 20)));
}

#[test]
fn write_leaves_other_keys_alone() {
    let mut c = Canvas::new();
    set_pixel(&mut c, 1, 2, "green".to_string(), 1);
    set_pixel(&mut c, 2, 1, "blue".to_string(), 2);
    set_pixel(&mut c, -1, 2, "black".to_string(), 3);
    assert_eq!(cell(&c, 1, 2), Some(("green".to_string(), 1)));
    assert_eq!(cell(&c, 2, 1), Some(("blue".to_string(), 2)));
    assert_eq!(cell(&c, -1, 2), Some(("black".to_string(), 3)));
    assert_eq!(c.len(), 3);
}

#[test]
fn any_color_text_is_kept() {
    let mut c = Canvas::new();
    set_pixel(&mut c, i32::MIN, i32::MAX, String::new(), 7);
    set_pixel(&mut c, 5, 5, "not a color".to_string(), 8);
    assert_eq!(cell(&c, i32::MIN, i32::MAX), Some((String::new(), 7)));
    assert_eq!(cell(&c, 5, 5), Some(("not a color".to_string(), 8)));
}

#[test]
fn empty_canvas_reads_nothing() {
    let c = Canvas::new();
    assert_eq!(c.len(), 0);
    assert!(c.all().is_empty());
    assert_eq!(cell(&c, 0, 0), None);
}

#[test]
fn delete_twice_equals_delete_once() {
    let mut c = Canvas::new();
    set_pixel(&mut c, 1, 1, "a".to_string(), 1);
    set_pixel(&mut c, 2, 2, "b".to_string(), 2);
    c.delete(1, 1);
    assert_eq!(cell(&c, 1, 1), None);
    assert_eq!(c.len(), 1);
    c.delete(1, 1);
    assert_eq!(cell(&c, 1, 1), None);
    assert_eq!(cell(&c, 2, 2), Some(("b".to_string(), 2)));
    assert_eq!(c.len(), 1);
}

#[test]
fn delete_of_absent_key_changes_nothing() {
    let mut c = Canvas::new();
    set_pixel(&mut c, 1, 1, "a".to_string(), 1);
    c.delete(9, 9);
    assert_eq!(c.len(), 1);
    assert_eq!(cell(&c, 1, 1), Some(("a".to_string(), 1)));
    let mut e = Canvas::new();
    e.delete(0, 0);
    assert_eq!(e.len(), 0);
}

#[test]
fn delete_if_older_reads_current_time() {
    let mut c = Canvas::new();
    set_pixel(&mut c, 1, 1, "a".to_string(), 5);
    assert!(!c.delete_if_older(1, 1, 5));
    assert_eq!(c.len(), 1);
    assert!(c.delete_if_older(1, 1, 6));
    assert_eq!(c.len(), 0);
    assert!(!c.delete_if_older(1, 1, 100));
}

#[test]
fn duplicate_copies_every_field() {
    let mut c = Canvas::new();
    set_pixel(&mut c, 4, -4, "teal".to_string(), 44);
    let p = c.all()[0].duplicate();
    assert_eq!((p.x, p.y, p.color.as_str(), p.timestamp), (4, -4, "teal", 44));
}
