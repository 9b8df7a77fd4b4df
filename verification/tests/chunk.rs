use sand_core::chunk::{AtomicDirty, DirtyRect};
use sand_core::creature::Creatures;

#[test]
fn merge_take_roundtrip() {
    let mut d = AtomicDirty::empty();
    assert!(d.take().is_empty());
    d.merge_rect(5, 6, 5, 6);
    d.merge_rect(2, 8, 3, 9);
    assert_eq!(d.take(), DirtyRect { x0: 2, y0: 6, x1: 5, y1: 9 });
    assert!(d.take().is_empty());
}

#[test]
fn merge_is_commutative() {
    let mut a = AtomicDirty::empty();
    let mut b = AtomicDirty::empty();
    a.merge_rect(1, 1, 2, 2);
    a.merge_rect(10, 0, 12, 5);
    b.merge_rect(10, 0, 12, 5);
    b.merge_rect(1, 1, 2, 2);
    assert_eq!(a.take(), b.take());
}

#[test]
fn empty_creatures_hash_into_is_zero() {
    assert_eq!(Creatures::new().hash_into(), 0);
}

#[test]
fn union_covers_both_rects() {
    let a = DirtyRect { x0: 1, y0: 2, x1: 3, y1: 4 };
    let b = DirtyRect { x0: 0, y0: 5, x1: 2, y1: 9 };
    assert_eq!(a.union(b), DirtyRect { x0: 0, y0: 2, x1: 3, y1: 9 });
    assert_eq!(a.union(DirtyRect::empty()), a);
    assert_eq!(a.union(a), a);
}

#[test]
fn merge_point_grows_rect() {
    let mut r = DirtyRect::empty();
    r.merge_point(7, 3);
    assert_eq!(r, DirtyRect { x0: 7, y0: 3, x1: 7, y1: 3 });
    r.merge_point(2, 10);
    assert_eq!(r, DirtyRect { x0: 2, y0: 3, x1: 7, y1: 10 });
    assert!(!r.is_empty());
    assert!(DirtyRect::empty().is_empty());
    assert!(!DirtyRect::full().is_empty());
}

#[test]
fn snapshot_does_not_clear() {
    let mut d = AtomicDirty::empty();
    assert!(!d.is_marked());
    d.merge_rect(4, 4, 6, 6);
    assert!(d.is_marked());
    assert_eq!(d.snapshot(), DirtyRect { x0: 4, y0: 4, x1: 6, y1: 6 });
    assert_eq!(d.take(), DirtyRect { x0: 4, y0: 4, x1: 6, y1: 6 });
    assert!(!d.is_marked());
}
