use layoutflash::area::Area;
use layoutflash::layout::{layout, resolve_offsets, sort_by_offset, LayoutError};

fn area(description: &str, offset: Option<u32>, size: u32) -> Area {
    Area {
        description: description.to_string(),
        compatible: String::new(),
        offset,
        size,
        file: None,
    }
}

fn names(areas: &Vec<Area>) -> Vec<String> {
    areas.iter().map(|a| a.description.clone()).collect()
}

#[test]
fn two_adjacent_areas_fit() {
    let mut areas = vec![area("a", Some(0), 16), area("b", Some(16), 16)];
    let l = layout(&mut areas).unwrap();
    assert_eq!(l.offsets, vec![0, 16]);
    assert_eq!(l.length, 32);
}

#[test]
fn two_overlapping_areas_fail() {
    let mut areas = vec![area("a", Some(0), 16), area("b", Some(8), 16)];
    assert_eq!(
        layout(&mut areas),
        Err(LayoutError::Overlap {
            index: 1,
            last_end: 16,
            description: "b".to_string(),
            offset: 8,
        })
    );
}

#[test]
fn areas_are_sorted_by_offset() {
    let mut areas = vec![area("c", Some(64), 16), area("a", Some(0), 16), area("b", Some(32), 8)];
    let l = layout(&mut areas).unwrap();
    assert_eq!(names(&areas), vec!["a", "b", "c"]);
    assert_eq!(l.offsets, vec![0, 32, 64]);
    assert_eq!(l.length, 80);
}

#[test]
fn sort_puts_areas_without_offset_first_and_keeps_their_order() {
    let mut areas = vec![
        area("x", Some(7), 1),
        area("n1", None, 1),
        area("y", Some(3), 1),
        area("n2", None, 1),
        area("z", Some(3), 2),
        area("w", Some(0), 1),
    ];
    sort_by_offset(&mut areas);
    assert_eq!(names(&areas), vec!["n1", "n2", "w", "y", "z", "x"]);
}

#[test]
fn sort_of_nothing_and_of_one() {
    let mut none: Vec<Area> = Vec::new();
    sort_by_offset(&mut none);
    assert!(none.is_empty());
    let mut one = vec![area("a", Some(5), 1)];
    sort_by_offset(&mut one);
    assert_eq!(names(&one), vec!["a"]);
}

#[test]
fn implicit_offsets_follow_the_area_before() {
    let areas = vec![area("a", None, 16), area("b", None, 4), area("c", Some(32), 8), area("d", None, 2)];
    let l = resolve_offsets(&areas).unwrap();
    assert_eq!(l.offsets, vec![0, 16, 32, 40]);
    assert_eq!(l.length, 42);
}

#[test]
fn first_area_without_offset_starts_at_zero() {
    let mut areas = vec![area("a", None, 10)];
    let l = layout(&mut areas).unwrap();
    assert_eq!(l.offsets, vec![0]);
    assert_eq!(l.length, 10);
}

#[test]
fn area_without_offset_pushes_into_an_explicit_one() {
    let mut areas = vec![area("fixed", Some(4), 4), area("free", None, 8)];
    assert_eq!(
        layout(&mut areas),
        Err(LayoutError::Overlap {
            index: 1,
            last_end: 8,
            description: "fixed".to_string(),
            offset: 4,
        })
    );
    assert_eq!(names(&areas), vec!["free", "fixed"]);
}

#[test]
fn gap_between_areas_is_allowed() {
    let mut areas = vec![area("a", Some(0), 4), area("b", Some(100), 4)];
    let l = layout(&mut areas).unwrap();
    assert_eq!(l.offsets, vec![0, 100]);
    assert_eq!(l.length, 104);
}

#[test]
fn empty_list_gives_empty_image() {
    let mut areas: Vec<Area> = Vec::new();
    let l = layout(&mut areas).unwrap();
    assert!(l.offsets.is_empty());
    assert_eq!(l.length, 0);
}

#[test]
fn zero_sized_area_takes_no_room() {
    let mut areas = vec![area("a", Some(0), 0), area("b", Some(0), 8)];
    let l = layout(&mut areas).unwrap();
    assert_eq!(l.offsets, vec![0, 0]);
    assert_eq!(l.length, 8);
}

#[test]
fn end_of_image_may_pass_32_bits() {
    let mut areas = vec![area("a", Some(0xffff_ffff), 0xffff_ffff)];
    let l = layout(&mut areas).unwrap();
    assert_eq!(l.offsets, vec![0xffff_ffff]);
    assert_eq!(l.length, 0x1_ffff_fffe);
}

#[test]
fn first_overlap_is_reported() {
    let areas = vec![
        area("a", Some(0), 16),
        area("b", Some(8), 16),
        area("c", Some(9), 16),
    ];
    match resolve_offsets(&areas) {
        Err(LayoutError::Overlap { index, last_end, description, offset }) => {
            assert_eq!(index, 1);
            assert_eq!(last_end, 16);
            assert_eq!(description, "b");
            assert_eq!(offset, 8);
        }
        other => panic!("unexpected: {:?}", other),
    }
}
