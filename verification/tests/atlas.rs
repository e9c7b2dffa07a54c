use oracle::atlas::{icon_px, IconAtlas, Placement, PAD};

#[test]
fn icon_sizes_are_clamped_to_what_the_atlas_takes() {
    assert_eq!(icon_px(0), 4);
    assert_eq!(icon_px(17), 17);
    assert_eq!(icon_px(300), 256);
}

#[test]
fn icons_are_packed_left_to_right_with_a_gap() {
    let mut atlas = IconAtlas::new();
    assert_eq!(atlas.reserve("play", false, 16), Some(Placement { x: PAD, y: PAD, px: 16 }));
    assert_eq!(atlas.reserve("square", true, 24), Some(Placement { x: 20, y: 2, px: 24 }));
    assert_eq!(atlas.lookup("play", false, 16), Some(Placement { x: 2, y: 2, px: 16 }));
    assert_eq!(atlas.lookup("play", true, 16), None);
    assert_eq!(atlas.lookup("play", false, 20), None);
}

#[test]
fn placing_the_same_icon_again_gives_back_its_square() {
    let mut atlas = IconAtlas::new();
    let first = atlas.reserve("search", false, 32);
    let again = atlas.reserve("search", false, 32);
    assert_eq!(first, again);
    assert_eq!(atlas.reserve("x", false, 32), Some(Placement { x: 36, y: 2, px: 32 }));
}

#[test]
fn a_full_row_starts_a_new_one_above_its_tallest_icon() {
    let mut atlas = IconAtlas::new();
    assert_eq!(atlas.reserve("a", false, 256), Some(Placement { x: 2, y: 2, px: 256 }));
    assert_eq!(atlas.reserve("b", false, 256), Some(Placement { x: 260, y: 2, px: 256 }));
    assert_eq!(atlas.reserve("c", false, 256), Some(Placement { x: 518, y: 2, px: 256 }));
    assert_eq!(atlas.reserve("d", false, 256), Some(Placement { x: 2, y: 260, px: 256 }));
}

#[test]
fn once_an_icon_does_not_fit_the_atlas_stays_closed() {
    let mut atlas = IconAtlas::new();
    let names = ["a", "b", "c", "d", "e", "f", "g", "h", "i"];
    for name in names {
        assert!(atlas.reserve(name, false, 256).is_some());
    }
    assert!(!atlas.is_full());
    assert_eq!(atlas.reserve("j", false, 256), None);
    assert!(atlas.is_full());
    assert_eq!(atlas.reserve("k", false, 4), None);
    assert_eq!(atlas.lookup("a", false, 256), Some(Placement { x: 2, y: 2, px: 256 }));
}
