use glyph_codec::connections::{
    BOTTOM, BOTTOM_LEFT, BOTTOM_RIGHT, CROSS, HORIZONTAL, LEFT, RIGHT, TOP, TOP_LEFT, TOP_RIGHT,
    VERTICAL,
};
use glyph_codec::{
    box_points_to_bytes, decode_to_bytes, gen_layout, generate_boxes, layout_byte_length,
    parse_boxes_to_points, AspectRatio, BoxLayout, BoxLayoutConfig,
};

#[test]
fn test_box_chars() {
    assert_eq!(TOP_LEFT, "┌┍┎┏");
    assert_eq!(TOP_RIGHT, "┐┑┒┓");
    assert_eq!(BOTTOM_LEFT, "└┕┖┗");
    assert_eq!(BOTTOM_RIGHT, "┘┙┚┛");
    assert_eq!(LEFT, "├┝┞┟┠┡┢┣");
    assert_eq!(RIGHT, "┤┥┦┧┨┩┪┫");
    assert_eq!(TOP, "┬┭┮┯┰┱┲┳");
    assert_eq!(BOTTOM, "┴┵┶┷┸┹┺┻");
    assert_eq!(CROSS, "┼┽┾┿╀╁╂╃╄╅╆╇╈╉╊╋");
    assert_eq!(HORIZONTAL, "─╼━╾");
    assert_eq!(VERTICAL, "│╽┃╿");
}

#[test]
fn test_calculate_bits_in_layout() {
    let layout = gen_layout(
        "##\n\
         ##",
    );
    assert_eq!(layout.calculate_bits(), 8);
    assert_eq!(BoxLayout::estimate_bits(2, 2), 8);
    let layout = gen_layout(
        "####\n\
         #XX#\n\
         ####",
    );
    assert_eq!(layout.calculate_bits(), 20);
    let layout = gen_layout(
        "####\n\
         ####\n\
         ####",
    );
    assert_eq!(layout.calculate_bits(), 34);
    assert_eq!(BoxLayout::estimate_bits(4, 3), 34);
}

#[test]
fn test_bytes_to_points() {
    let layout = gen_layout(
        "##\n\
         ##",
    );
    assert_eq!(layout.bytes_to_points(&[0b01010101]), vec![1, 1, 1, 1]);
    assert_eq!(layout.bytes_to_points(&[0b11110000]), vec![0, 0, 3, 3]);
    let layout = gen_layout(
        "####\n\
         #XX#\n\
         ####",
    );
    assert_eq!(
        layout.bytes_to_points(&[0b01010101, 0b01010101]),
        vec![1, 1, 1, 1, 1, 1, 1, 1]
    );
    assert_eq!(
        layout.bytes_to_points(&[0b11110000, 0b11110000]),
        vec![0, 0, 3, 3, 0, 0, 3, 3]
    );
}

#[test]
fn test_display_bytes() {
    let layout = gen_layout(
        "##\n\
         ##",
    );
    assert_eq!(layout.display_bytes(&[0]), "┌┐\n└┘");
    assert_eq!(layout.display_bytes(&[0b01010101]), "┍┑\n┕┙");
    assert_eq!(layout.display_bytes(&[0b11110000]), "┌┐\n┗┛");
    let layout = gen_layout(
        "####\n\
         #XX#\n\
         ####",
    );
    assert_eq!(
        layout.display_bytes(&[0b01010101, 0b01010101]),
        "┍╼╼┑\n╽XX╽\n┕╼─┘"
    );
    let layout = gen_layout(
        "####\n\
         ####\n\
         #XX#",
    );
    assert_eq!(
        layout.display_bytes(&[0b11110000, 0b11110000]),
        "┌┰┳┐\n┠┻┴┤\n XX "
    );
    let layout = gen_layout(
        "####\n\
         ####\n\
         ##XX",
    );
    assert_eq!(
        layout.display_bytes(&[0b11110000, 0b11110000]),
        "┌┰┳┐\n┠┼┴┘\n└┘XX"
    );
}

#[test]
fn test_layout_data() {
    let config = BoxLayoutConfig {
        min_width: Some(4),
        min_height: Some(3),
        max_width: None,
        max_height: None,
        aspect_ratio: Some(AspectRatio { rows: 1, columns: 1 }),
        blackouts: vec![(1, 1, "Hello".to_string())],
    };
    let layout = layout_byte_length(8, Some(config)).unwrap();
    assert_eq!(layout.width(), 7);
    assert_eq!(layout.height(), 5);
    assert_eq!(layout.calculate_bits(), 84);

    let layout = layout_byte_length(8, None).unwrap();
    assert_eq!(layout.width(), 5);
    assert_eq!(layout.height(), 5);
    assert_eq!(layout.calculate_bits(), 80);

    let config = BoxLayoutConfig {
        max_width: Some(80),
        max_height: Some(5),
        ..Default::default()
    };
    let layout = layout_byte_length(150, Some(config)).unwrap();
    assert_eq!(layout.width(), 68);
    assert_eq!(layout.height(), 5);
    assert_eq!(layout.calculate_bits(), 1214);
}

#[test]
fn test_create_boxes() {
    let test = ("Hello".to_string(), 42u32);
    let config = BoxLayoutConfig {
        min_width: Some(4),
        min_height: Some(3),
        max_width: None,
        max_height: None,
        aspect_ratio: Some(AspectRatio { rows: 1, columns: 1 }),
        blackouts: vec![(1, 1, " C+c ".to_string())],
    };
    let data = postcard::to_allocvec(&test).unwrap();
    assert_eq!(data, b"\x05Hello*");
    let boxes = generate_boxes(data.as_slice(), Some(config)).unwrap();
    assert_eq!(
        boxes,
        "┍╼───━┐\n\
         ╽ C+c ╽\n\
         ┝┯┰┱┭┲┪\n\
         ┖┻┺┸┶┵┘"
    );
}

#[test]
fn test_parse_boxes_to_points() {
    let boxes = "┍╼───━┐\n\
                       ╽ C+c ╽\n\
                       ┝┯┰┱┭┲┪\n\
                       ┖┻┺┸┶┵┘";
    assert_eq!(
        parse_boxes_to_points(boxes),
        vec![
            (1, 2),
            (1, 2),
            (0, 2),
            (0, 2),
            (0, 2),
            (2, 2),
            (0, 2),
            (1, 2),
            (1, 2),
            (1, 3),
            (3, 3),
            (4, 3),
            (5, 3),
            (1, 3),
            (6, 3),
            (6, 3),
            (2, 2),
            (7, 3),
            (6, 3),
            (4, 3),
            (2, 3),
            (1, 3),
            (0, 2)
        ]
    );
}

#[test]
fn test_box_points_to_bytes() {
    let box_points = parse_boxes_to_points("┌┐\n└┘");
    assert_eq!(box_points_to_bytes(&box_points), vec![0b00000000]);
    let box_points = parse_boxes_to_points("┍╼╼┑\n╽XX╽\n┕╼─┘");
    assert_eq!(box_points_to_bytes(&box_points), [0b01010101, 0b01010101]);
}

#[test]
fn test_parse_boxes() {
    let boxes = "┍╼───━┐\n\
                       ╽ C+c ╽\n\
                       ┝┯┰┱┭┲┪\n\
                       ┖┻┺┸┶┵┘";
    let bytes = decode_to_bytes(boxes);
    let test: (String, u32) = postcard::from_bytes(&bytes).unwrap();
    assert_eq!(test, ("Hello".to_string(), 42));
}

#[test]
fn draw_some_boxes() {
    let layout = gen_layout(
        "##\n\
         ##",
    );
    println!("{}", layout.display_bytes(&[0]));
    let layout = gen_layout(
        "###\n\
         #.#\n\
         ###",
    );
    println!("{}", layout.display_bytes(&[0, 0]));
    let layout = gen_layout(
        "#####\n\
         #####\n\
         ###..\n\
         ###..",
    );
    println!("{}", layout.display_bytes(&[255, 255, 255, 255]));
    let layout = gen_layout(
        "#####\n\
         #####\n\
         #####\n\
         #####\n\
         #####",
    );
    println!("{}", layout.display_bytes(&[255, 255, 255, 255]));
    let layout = gen_layout(
        "###\n\
         ###\n\
         ###",
    );
    println!("{}", layout.display_bytes(&[0, 0]));
}
