use layoutflash::area::Area;
use layoutflash::extract::{read_areas, read_tree, Event, Scalar};
use layoutflash::image::area_patches;
use layoutflash::layout::{layout, LayoutError};
use layoutflash::path::{file_path, EnvVar};

fn area(offset: Option<u32>, size: u32, file: Option<&str>) -> Area {
    Area {
        description: String::new(),
        compatible: String::new(),
        offset,
        size,
        file: file.map(|f| f.to_string()),
    }
}

fn content(path: &str) -> Vec<u8> {
    match path {
        "f" => vec![1, 2, 3, 4, 5, 6],
        "/out/boot.bin" => vec![0xaa, 0xbb, 0xcc],
        _ => panic!("no such file: {}", path),
    }
}

/// Builds the image in memory, gaps left at zero.
fn build(areas: &mut Vec<Area>, env: &Vec<EnvVar>) -> Result<Vec<u8>, LayoutError> {
    let plan = layout(areas)?;
    let mut image = vec![0u8; plan.length as usize];
    for (a, offset) in areas.iter().zip(plan.offsets.iter()) {
        let path = file_path(a, env);
        let data = path.as_ref().map(|p| content(p));
        for p in area_patches(*offset, a.size, path.as_deref().unwrap_or(""), data)? {
            let at = p.offset as usize;
            image[at..at + p.data.len()].copy_from_slice(&p.data);
        }
    }
    Ok(image)
}

#[test]
fn two_areas_make_an_image_of_32_bytes() {
    let mut areas = vec![area(Some(0), 16, None), area(Some(16), 16, None)];
    let image = build(&mut areas, &Vec::new()).unwrap();
    assert_eq!(image, vec![0xffu8; 32]);
}

#[test]
fn overlap_stops_the_build() {
    let mut areas = vec![area(Some(0), 16, None), area(Some(8), 16, None)];
    match build(&mut areas, &Vec::new()) {
        Err(LayoutError::Overlap { last_end, offset, .. }) => {
            assert_eq!(last_end, 16);
            assert_eq!(offset, 8);
        }
        other => panic!("unexpected: {:?}", other),
    }
}

#[test]
fn file_of_six_bytes_does_not_fit_four() {
    let mut areas = vec![area(None, 4, Some("f"))];
    assert_eq!(
        build(&mut areas, &Vec::new()),
        Err(LayoutError::FileTooLarge { path: "f".to_string(), file_len: 6, area_size: 4 })
    );
}

#[test]
fn file_smaller_than_its_area_is_followed_by_fill() {
    let env = vec![EnvVar { name: "OUT".to_string(), value: "/out".to_string() }];
    let mut areas = vec![area(Some(8), 8, Some("$(OUT)/boot.bin")), area(Some(0), 4, None)];
    let image = build(&mut areas, &env).unwrap();
    assert_eq!(
        image,
        vec![
            0xff, 0xff, 0xff, 0xff, 0, 0, 0, 0, 0xaa, 0xbb, 0xcc, 0xff, 0xff, 0xff, 0xff, 0xff
        ]
    );
}

#[test]
fn unset_variable_leaves_the_area_filled() {
    let env = vec![EnvVar { name: "OUT".to_string(), value: "/out".to_string() }];
    let mut areas = vec![area(None, 4, Some("$(UNSET_VAR)"))];
    let image = build(&mut areas, &env).unwrap();
    assert_eq!(image, vec![0xff, 0xff, 0xff, 0xff]);
}

#[test]
fn areas_from_a_stream_make_an_image() {
    let events = vec![
        Event::StartNode { name: "area@1".to_string() },
        Event::Property { name: "size".to_string(), value: Scalar::Word(2) },
        Event::EndNode,
        Event::StartNode { name: "area@0".to_string() },
        Event::Property { name: "offset".to_string(), value: Scalar::Word(4) },
        Event::Property { name: "size".to_string(), value: Scalar::Word(3) },
        Event::Property { name: "file".to_string(), value: Scalar::Text("/out/boot.bin".to_string()) },
        Event::EndNode,
    ];
    let mut areas = read_areas(&events).unwrap();
    let image = build(&mut areas, &Vec::new()).unwrap();
    assert_eq!(image, vec![0xff, 0xff, 0, 0, 0xaa, 0xbb, 0xcc]);
}

#[test]
fn whole_tree_makes_an_image() {
    let events = vec![
        Event::StartNode { name: String::new() },
        Event::StartNode { name: "area@0".to_string() },
        Event::Property { name: "size".to_string(), value: Scalar::Word(2) },
        Event::Property { name: "checksum".to_string(), value: Scalar::Word(77) },
        Event::EndNode,
        Event::StartNode { name: "area@1".to_string() },
        Event::Property { name: "size".to_string(), value: Scalar::Word(3) },
        Event::Property { name: "file".to_string(), value: Scalar::Text("$(OUT)/boot.bin".to_string()) },
        Event::EndNode,
        Event::EndNode,
    ];
    let env = vec![EnvVar { name: "OUT".to_string(), value: "/out".to_string() }];
    let mut areas = read_tree(&events).unwrap();
    let image = build(&mut areas, &env).unwrap();
    assert_eq!(image, vec![0xff, 0xff, 0xaa, 0xbb, 0xcc]);
}
