use crunch::Rect;

#[test]
fn new_and_of_size_set_fields() {
    let r = Rect::new(1, 2, 3, 4);
    assert_eq!((r.x, r.y, r.w, r.h), (1, 2, 3, 4));
    assert_eq!(Rect::of_size(5, 6), Rect::new(0, 0, 5, 6));
}

#[test]
fn area_is_width_times_height() {
    assert_eq!(Rect::new(7, 9, 3, 4).area(), 12);
    assert_eq!(Rect::of_size(0, 10).area(), 0);
}

#[test]
fn edges_and_corner() {
    let r = Rect::new(2, 3, 10, 20);
    assert_eq!(r.right(), 12);
    assert_eq!(r.bottom(), 23);
    assert_eq!(r.top_left(), (2, 3));
}

#[test]
fn contains_is_closed_on_near_edges_and_bounded_by_far_edges() {
    let outer = Rect::new(0, 0, 10, 10);
    assert!(outer.contains(&Rect::new(0, 0, 10, 10)));
    assert!(outer.contains(&Rect::new(2, 3, 4, 5)));
    assert!(!outer.contains(&Rect::new(7, 0, 4, 1)));
    assert!(!outer.contains(&Rect::new(0, 9, 1, 2)));
    assert!(!Rect::new(5, 5, 5, 5).contains(&Rect::new(4, 5, 1, 1)));
}

#[test]
fn contains_near_the_largest_coordinates() {
    let outer = Rect::new(usize::MAX - 5, 0, 5, 1);
    assert!(outer.contains(&Rect::new(usize::MAX - 3, 0, 2, 1)));
    assert!(!outer.contains(&Rect::new(usize::MAX - 3, 0, 4, 1)));
}

#[test]
fn overlaps_needs_shared_interior() {
    let a = Rect::new(0, 0, 5, 5);
    assert!(a.overlaps(&Rect::new(4, 4, 5, 5)));
    assert!(!a.overlaps(&Rect::new(5, 0, 5, 5)));
    assert!(!a.overlaps(&Rect::new(0, 5, 5, 5)));
    assert!(a.overlaps(&Rect::new(1, 1, 1, 1)));
}

#[test]
fn overlaps_is_symmetric() {
    let a = Rect::new(3, 1, 4, 6);
    let b = Rect::new(6, 6, 2, 2);
    let c = Rect::new(7, 0, 2, 2);
    assert_eq!(a.overlaps(&b), b.overlaps(&a));
    assert_eq!(a.overlaps(&c), c.overlaps(&a));
    assert!(a.overlaps(&b));
    assert!(!a.overlaps(&c));
}

#[test]
fn overlaps_near_the_largest_coordinates() {
    let a = Rect::new(usize::MAX - 10, usize::MAX - 10, 10, 10);
    assert!(a.overlaps(&Rect::new(usize::MAX - 1, usize::MAX - 1, 1, 1)));
    assert!(!a.overlaps(&Rect::new(0, 0, 5, 5)));
}

#[test]
fn split_gives_the_four_side_strips() {
    let s = Rect::of_size(10, 10);
    let parts = s.split(&Rect::new(2, 3, 4, 5));
    assert_eq!(parts[0], Some(Rect::new(0, 0, 2, 10)));
    assert_eq!(parts[1], Some(Rect::new(6, 0, 4, 10)));
    assert_eq!(parts[2], Some(Rect::new(0, 0, 10, 3)));
    assert_eq!(parts[3], Some(Rect::new(0, 8, 10, 2)));
}

#[test]
fn split_by_a_covering_rect_leaves_nothing() {
    let s = Rect::new(4, 4, 3, 3);
    assert_eq!(s.split(&Rect::new(0, 0, 10, 10)), [None, None, None, None]);
    let corner = s.split(&Rect::new(4, 4, 1, 3));
    assert_eq!(corner, [None, Some(Rect::new(5, 4, 2, 3)), None, None]);
}

#[test]
fn zero_area_rects_overlap_nothing() {
    let flat = Rect::new(0, 5, 10, 0);
    let tall = Rect::new(2, 0, 3, 10);
    assert!(!flat.overlaps(&tall));
    assert!(!tall.overlaps(&flat));
    assert!(!Rect::new(5, 5, 0, 0).overlaps(&Rect::of_size(10, 10)));
}

#[test]
fn split_keeps_only_strips_with_area() {
    let flat = Rect::new(0, 5, 10, 0);
    assert_eq!(flat.split(&Rect::new(2, 0, 3, 10)), [None, None, None, None]);
    let thin = Rect::new(0, 0, 0, 10);
    assert_eq!(thin.split(&Rect::new(0, 2, 5, 3)), [None, None, None, None]);
}
