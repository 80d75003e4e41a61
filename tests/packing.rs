use crunch::{pack, pack_into_po2, Item, PackedItem, Packer, PackedItems, Rect, Rotation};

fn assert_sound<T>(container: Rect, placed: &[PackedItem<T>]) {
    for (i, a) in placed.iter().enumerate() {
        assert!(container.contains(&a.rect));
        for (j, b) in placed.iter().enumerate() {
            if i != j {
                assert!(!a.rect.overlaps(&b.rect));
            }
        }
    }
    let used: usize = placed.iter().map(|p| p.rect.area()).sum();
    assert!(used <= container.area());
}

fn letters() -> Vec<Item<&'static char>> {
    vec![
        Item::new(&'A', 2, 9, Rotation::Allowed),
        Item::new(&'B', 3, 8, Rotation::Allowed),
        Item::new(&'C', 4, 7, Rotation::Allowed),
        Item::new(&'D', 5, 6, Rotation::Allowed),
        Item::new(&'E', 6, 5, Rotation::Allowed),
        Item::new(&'F', 7, 4, Rotation::Allowed),
        Item::new(&'G', 8, 3, Rotation::Allowed),
        Item::new(&'H', 9, 2, Rotation::Allowed),
    ]
}

fn rects<T>(placed: &[PackedItem<T>]) -> Vec<Rect> {
    placed.iter().map(|p| p.rect).collect()
}

#[test]
fn eight_letters_fit_in_fifteen_square() {
    let container = Rect::of_size(15, 15);
    let packed = match pack(container, letters()) {
        Ok(all) => all,
        Err(_) => panic!("all eight items fit"),
    };
    assert_eq!(packed.len(), 8);
    assert_sound(container, &packed);
    let mut names: Vec<char> = packed.iter().map(|p| *p.data).collect();
    names.sort();
    assert_eq!(names, vec!['A', 'B', 'C', 'D', 'E', 'F', 'G', 'H']);
}

#[test]
fn two_threes_in_four_square_places_one() {
    let container = Rect::of_size(4, 4);
    let items = vec![
        Item::new(1u32, 3, 3, Rotation::Disallowed),
        Item::new(2u32, 3, 3, Rotation::Disallowed),
    ];
    match pack(container, items) {
        Ok(_) => panic!("both items cannot fit"),
        Err(some) => {
            assert_eq!(some.len(), 1);
            assert_eq!(some[0].data, 1);
            assert_eq!(some[0].rect, Rect::new(0, 0, 3, 3));
        }
    }
}

#[test]
fn too_large_item_places_nothing() {
    let items = vec![Item::new(0u8, 20, 20, Rotation::Disallowed)];
    match pack(Rect::of_size(10, 10), items) {
        Ok(_) => panic!("the item is larger than the container"),
        Err(some) => assert!(some.is_empty()),
    }
}

#[test]
fn square_item_is_never_rotated() {
    let items = vec![Item::new('s', 5, 5, Rotation::Allowed)];
    let packed = pack(Rect::of_size(8, 6), items).ok().unwrap();
    assert_eq!(packed.len(), 1);
    assert_eq!((packed[0].rect.w, packed[0].rect.h), (5, 5));
}

#[test]
fn rotation_is_used_when_only_the_turned_item_fits() {
    let container = Rect::of_size(4, 1);
    let allowed = pack(container, vec![Item::new(7u8, 1, 4, Rotation::Allowed)]).ok().unwrap();
    assert_eq!(allowed[0].rect, Rect::new(0, 0, 4, 1));
    let fixed = pack(container, vec![Item::new(7u8, 1, 4, Rotation::Disallowed)]);
    assert!(matches!(fixed, Err(ref v) if v.is_empty()));
}

#[test]
fn unrotatable_items_keep_their_size() {
    let container = Rect::of_size(20, 20);
    let items = vec![
        Item::new(0usize, 4, 1, Rotation::Disallowed),
        Item::new(1usize, 2, 7, Rotation::Disallowed),
        Item::new(2usize, 9, 3, Rotation::Disallowed),
    ];
    let sizes = [(4, 1), (2, 7), (9, 3)];
    let packed = pack(container, items).ok().unwrap();
    for p in &packed {
        assert_eq!((p.rect.w, p.rect.h), sizes[p.data]);
    }
    assert_sound(container, &packed);
}

#[test]
fn rotated_items_swap_exactly() {
    let container = Rect::of_size(15, 15);
    let given: Vec<(char, usize, usize)> =
        letters().iter().map(|i| (*i.data, i.w, i.h)).collect();
    let packed = pack(container, letters()).ok().unwrap();
    for p in &packed {
        let (_, w, h) = *given.iter().find(|o| o.0 == *p.data).unwrap();
        if p.rect.w != w {
            assert_eq!((p.rect.w, p.rect.h), (h, w));
        } else {
            assert_eq!(p.rect.h, h);
        }
    }
}

#[test]
fn items_come_out_by_descending_priority_ties_in_input_order() {
    let items = vec![
        Item::new('a', 1, 1, Rotation::Disallowed),
        Item::new('b', 3, 3, Rotation::Disallowed),
        Item::new('c', 2, 2, Rotation::Disallowed),
        Item::new('d', 2, 2, Rotation::Disallowed),
    ];
    let packed = pack(Rect::of_size(10, 10), items).ok().unwrap();
    let order: Vec<char> = packed.iter().map(|p| p.data).collect();
    assert_eq!(order, vec!['b', 'c', 'd', 'a']);
}

#[test]
fn first_item_goes_to_the_container_corner() {
    let container = Rect::new(5, 7, 10, 10);
    let packed = pack(container, vec![Item::new((), 3, 3, Rotation::Disallowed)]).ok().unwrap();
    assert_eq!(packed[0].rect, Rect::new(5, 7, 3, 3));
}

#[test]
fn ties_between_free_regions_go_to_the_earlier_one() {
    let items = vec![
        Item::new(0u8, 6, 6, Rotation::Disallowed),
        Item::new(1u8, 4, 4, Rotation::Disallowed),
    ];
    let packed = pack(Rect::of_size(10, 10), items).ok().unwrap();
    assert_eq!(packed[0].rect, Rect::new(0, 0, 6, 6));
    assert_eq!(packed[1].rect, Rect::new(6, 0, 4, 4));
}

#[test]
fn empty_item_list_succeeds() {
    let packed = pack::<u8>(Rect::of_size(3, 3), Vec::new());
    assert!(matches!(packed, Ok(ref v) if v.is_empty()));
}

#[test]
fn packing_is_deterministic() {
    let container = Rect::of_size(15, 15);
    let first = pack(container, letters()).ok().unwrap();
    let second = pack(container, letters()).ok().unwrap();
    assert_eq!(rects(&first), rects(&second));
    let a: Vec<char> = first.iter().map(|p| *p.data).collect();
    let b: Vec<char> = second.iter().map(|p| *p.data).collect();
    assert_eq!(a, b);
}

#[test]
fn reused_packer_matches_a_fresh_one() {
    let mut used = Packer::with_items(letters());
    let _ = used.pack(Rect::of_size(6, 6));
    let _ = used.pack(Rect::of_size(15, 15));
    used.clear();
    used.extend(letters());
    let again = used.pack(Rect::of_size(15, 15)).ok().unwrap();
    let mut fresh = Packer::with_items(letters());
    let first = fresh.pack(Rect::of_size(15, 15)).ok().unwrap();
    assert_eq!(rects(&again), rects(&first));
}

#[test]
fn push_clear_and_capacity() {
    let mut packer: Packer<u8> = Packer::with_capacity(4);
    packer.push(Item::new(1, 2, 2, Rotation::Disallowed));
    packer.push(Item::new(2, 2, 2, Rotation::Disallowed));
    packer.clear();
    packer.push(Item::new(3, 1, 1, Rotation::Disallowed));
    let packed = packer.pack(Rect::of_size(2, 2)).ok().unwrap();
    assert_eq!(packed.len(), 1);
    assert_eq!(packed[0].data, 3);
    let mut empty: Packer<u8> = Packer::default();
    assert!(matches!(empty.pack(Rect::of_size(1, 1)), Ok(ref v) if v.is_empty()));
    let mut new: Packer<u8> = Packer::new();
    new.extend(vec![Item::new(9, 1, 1, Rotation::Disallowed)]);
    assert_eq!(new.pack(Rect::of_size(1, 1)).ok().unwrap()[0].rect, Rect::new(0, 0, 1, 1));
}

#[test]
fn sort_priority_is_area_plus_longest_side() {
    assert_eq!(Item::new((), 3, 5, Rotation::Disallowed).sort_priority(), 20);
    assert_eq!(Item::new((), 7, 2, Rotation::Allowed).sort_priority(), 21);
    let big = Item::new((), usize::MAX, 2, Rotation::Disallowed);
    assert_eq!(big.sort_priority(), 3 * (usize::MAX as u128));
}

#[test]
fn hundred_squares_fill_a_power_of_two_atlas() {
    let items: Vec<Item<usize>> =
        (0..100).map(|i| Item::new(i, 100, 100, Rotation::Disallowed)).collect();
    match pack_into_po2(1024, items) {
        Ok(PackedItems { w, h, items }) => {
            assert_eq!((w, h), (1024, 1024));
            assert_eq!(items.len(), 100);
            assert_sound(Rect::of_size(w, h), &items);
        }
        Err(()) => panic!("a 1024 x 1024 atlas holds the ten by ten grid"),
    }
}

#[test]
fn po2_picks_the_smallest_square_side() {
    let packed = pack_into_po2(1024, vec![Item::new('x', 3, 3, Rotation::Disallowed)]).ok().unwrap();
    assert_eq!((packed.w, packed.h), (4, 4));
    assert_eq!(packed.items[0].rect, Rect::new(0, 0, 3, 3));
}

#[test]
fn po2_prefers_a_wide_container_before_doubling() {
    let packed = pack_into_po2(64, vec![Item::new(0u8, 4, 2, Rotation::Disallowed)]).ok().unwrap();
    assert_eq!((packed.w, packed.h), (4, 2));
}

#[test]
fn po2_sides_are_powers_of_two_within_bound() {
    let items = vec![
        Item::new(0u8, 13, 5, Rotation::Allowed),
        Item::new(1u8, 7, 21, Rotation::Allowed),
        Item::new(2u8, 3, 3, Rotation::Disallowed),
    ];
    let packed = pack_into_po2(256, items).ok().unwrap();
    assert!(packed.w.is_power_of_two() && packed.h.is_power_of_two());
    assert!(packed.w <= 256 && packed.h <= 256);
    assert_eq!(packed.items.len(), 3);
    assert_sound(Rect::of_size(packed.w, packed.h), &packed.items);
}

#[test]
fn po2_fails_when_the_bound_is_too_small() {
    let items = vec![Item::new(0u8, 10, 10, Rotation::Disallowed)];
    assert!(pack_into_po2(8, items).is_err());
    let mut packer: Packer<u8> = Packer::new();
    assert!(packer.pack_into_po2(0).is_err());
}

#[test]
fn po2_with_no_items_takes_the_smallest_container() {
    let packed = pack_into_po2::<u8>(1024, Vec::new()).ok().unwrap();
    assert_eq!((packed.w, packed.h), (1, 1));
    assert!(packed.items.is_empty());
    let mut packer: Packer<u8> = Packer::new();
    let tiny = packer.pack_into_po2(1).ok().unwrap();
    assert_eq!((tiny.w, tiny.h), (1, 1));
}

#[test]
fn po2_single_unit_item_fits_one_by_one() {
    let packed = pack_into_po2(1024, vec![Item::new('u', 1, 1, Rotation::Disallowed)]).ok().unwrap();
    assert_eq!((packed.w, packed.h), (1, 1));
    assert_eq!(packed.items[0].rect, Rect::new(0, 0, 1, 1));
}

#[test]
fn po2_two_unit_items_take_a_wide_container() {
    let items = vec![
        Item::new(0u8, 1, 1, Rotation::Disallowed),
        Item::new(1u8, 1, 1, Rotation::Disallowed),
    ];
    let packed = pack_into_po2(1024, items).ok().unwrap();
    assert_eq!((packed.w, packed.h), (2, 1));
    assert_eq!(packed.items[0].rect, Rect::new(0, 0, 1, 1));
    assert_eq!(packed.items[1].rect, Rect::new(1, 0, 1, 1));
}

#[test]
fn least_wasted_area_wins() {
    let items = vec![
        Item::new(0u8, 6, 6, Rotation::Disallowed),
        Item::new(1u8, 2, 2, Rotation::Disallowed),
    ];
    let packed = pack(Rect::of_size(10, 8), items).ok().unwrap();
    assert_eq!(packed[1].rect, Rect::new(0, 6, 2, 2));
}

#[test]
fn equal_waste_goes_to_the_tighter_side() {
    let items = vec![
        Item::new(0u8, 6, 6, Rotation::Disallowed),
        Item::new(1u8, 3, 4, Rotation::Disallowed),
    ];
    let packed = pack(Rect::of_size(10, 10), items).ok().unwrap();
    assert_eq!(packed[1].rect, Rect::new(0, 6, 3, 4));
}
