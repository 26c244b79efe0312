use layoutflash::area::FILL_BYTE;
use layoutflash::image::{area_patches, embed, fill};
use layoutflash::layout::LayoutError;

fn apply(image: &mut Vec<u8>, offset: u64, data: &[u8]) {
    let start = offset as usize;
    if !data.is_empty() && image.len() < start + data.len() {
        image.resize(start + data.len(), 0);
    }
    image[start..start + data.len()].copy_from_slice(data);
}

#[test]
fn fill_byte_is_all_ones() {
    assert_eq!(FILL_BYTE, 0xff);
}

#[test]
fn fill_covers_the_area() {
    let p = fill(32, 16);
    assert_eq!(p.offset, 32);
    assert_eq!(p.data, vec![0xffu8; 16]);
}

#[test]
fn fill_of_an_empty_area() {
    let p = fill(5, 0);
    assert_eq!(p.offset, 5);
    assert!(p.data.is_empty());
}

#[test]
fn file_too_large_is_refused() {
    let r = embed(0, 4, "f", vec![1, 2, 3, 4, 5, 6]);
    match r {
        Err(LayoutError::FileTooLarge { path, file_len, area_size }) => {
            assert_eq!(path, "f");
            assert_eq!(file_len, 6);
            assert_eq!(area_size, 4);
        }
        other => panic!("unexpected: {:?}", other),
    }
}

#[test]
fn file_of_the_area_size_fits() {
    let p = embed(8, 4, "f", vec![1, 2, 3, 4]).unwrap();
    assert_eq!(p.offset, 8);
    assert_eq!(p.data, vec![1, 2, 3, 4]);
}

#[test]
fn empty_file_fits_an_empty_area() {
    let p = embed(8, 0, "f", Vec::new()).unwrap();
    assert_eq!(p.offset, 8);
    assert!(p.data.is_empty());
}

#[test]
fn file_goes_over_the_start_of_the_fill() {
    let mut image: Vec<u8> = Vec::new();
    let f = fill(4, 8);
    apply(&mut image, f.offset, &f.data);
    let e = embed(4, 8, "f", vec![1, 2, 3]).unwrap();
    apply(&mut image, e.offset, &e.data);
    assert_eq!(image, vec![0, 0, 0, 0, 1, 2, 3, 0xff, 0xff, 0xff, 0xff, 0xff]);
}

#[test]
fn area_without_file_is_all_fill() {
    let mut image: Vec<u8> = Vec::new();
    let f = fill(0, 4);
    apply(&mut image, f.offset, &f.data);
    assert_eq!(image, vec![0xff, 0xff, 0xff, 0xff]);
}

#[test]
fn area_without_file_has_one_patch() {
    let patches = area_patches(8, 4, "", None).unwrap();
    assert_eq!(patches.len(), 1);
    assert_eq!(patches[0].offset, 8);
    assert_eq!(patches[0].data, vec![0xffu8; 4]);
}

#[test]
fn area_with_file_has_fill_then_file() {
    let patches = area_patches(8, 4, "f", Some(vec![1, 2])).unwrap();
    assert_eq!(patches.len(), 2);
    assert_eq!(patches[0].offset, 8);
    assert_eq!(patches[0].data, vec![0xffu8; 4]);
    assert_eq!(patches[1].offset, 8);
    assert_eq!(patches[1].data, vec![1, 2]);
    let mut image: Vec<u8> = Vec::new();
    for p in &patches {
        apply(&mut image, p.offset, &p.data);
    }
    assert_eq!(image, vec![0, 0, 0, 0, 0, 0, 0, 0, 1, 2, 0xff, 0xff]);
}

#[test]
fn area_patches_refuse_a_file_too_large() {
    match area_patches(0, 4, "f", Some(vec![1, 2, 3, 4, 5, 6])) {
        Err(LayoutError::FileTooLarge { path, file_len, area_size }) => {
            assert_eq!(path, "f");
            assert_eq!(file_len, 6);
            assert_eq!(area_size, 4);
        }
        other => panic!("unexpected: {:?}", other),
    }
}
