use glyph_codec::connections::{
    glyph_symbol, BOTTOM, BOTTOM_LEFT, BOTTOM_RIGHT, CROSS, HORIZONTAL, LEFT, RIGHT, TOP,
    TOP_LEFT, TOP_RIGHT, VERTICAL,
};
use glyph_codec::{
    box_points_to_bytes, check_config, decode_to_bytes, gen_layout, generate_boxes,
    layout_byte_length, marked_layout, parse_boxes_to_points, parse_clusters, AspectRatio,
    BoxLayout, BoxLayoutConfig, Cell, Connections, EncodeError,
};
use std::collections::HashSet;

const CLASSES: [Connections; 11] = [
    Connections::RightDown,
    Connections::LeftDown,
    Connections::RightUp,
    Connections::LeftUp,
    Connections::DownUp,
    Connections::RightLeft,
    Connections::RightLeftDown,
    Connections::RightLeftUp,
    Connections::RightDownUp,
    Connections::LeftDownUp,
    Connections::All,
];

fn config() -> BoxLayoutConfig {
    BoxLayoutConfig::default()
}

#[test]
fn one_zero_byte_draws_a_closed_box() {
    assert_eq!(generate_boxes(&[0x00], None), Ok("┌┐\n└┘".to_string()));
    let layout = layout_byte_length(1, None).unwrap();
    assert_eq!((layout.width(), layout.height()), (2, 2));
    for y in 0..2 {
        for x in 0..2 {
            assert_eq!(layout.get_connections_at(x, y).unwrap().get_bits(), 2);
        }
    }
}

#[test]
fn drawing_reads_back_to_the_bytes() {
    let cases: [&[u8]; 5] = [
        &[0x00],
        &[0xa5],
        &[0xff, 0x3f],
        &[1, 2, 3, 4, 5, 6, 7, 8],
        &[0xde, 0xad, 0xbe, 0xef, 0x01],
    ];
    for bytes in cases {
        let layout = layout_byte_length(bytes.len(), None).unwrap();
        assert!(layout.holds_bytes(bytes.len()));
        let text = layout.display_bytes(bytes);
        let decoded = decode_to_bytes(&text);
        assert!(decoded.len() >= bytes.len());
        let symbols: usize = layout
            .bytes_to_points(bytes)
            .len();
        assert!(symbols > 0);
        let all_bits_drawn = match bytes.len() {
            2 => false,
            _ => true,
        };
        if all_bits_drawn || bytes[bytes.len() - 1] < 0x40 {
            assert_eq!(&decoded[..bytes.len()], bytes);
        }
    }
    let layout = gen_layout("###\n###\n###");
    let text = layout.display_bytes(&[0xa5, 0x5a, 0xc3]);
    assert_eq!(
        text,
        "\u{250D}\u{252D}\u{2511}\n\u{2521}\u{2542}\u{2529}\n\u{2515}\u{2534}\u{251B}"
    );
    assert_eq!(decode_to_bytes(&text), vec![165, 90, 195]);
}

#[test]
fn bits_that_fill_no_cell_are_not_drawn() {
    let layout = layout_byte_length(2, None).unwrap();
    assert_eq!((layout.width(), layout.height()), (3, 3));
    assert_eq!(layout.bytes_to_points(&[0xff, 0xff]), vec![3, 7, 3, 7, 15]);
    let text = layout.display_bytes(&[0xff, 0xff]);
    assert_eq!(
        text,
        "\u{250F}\u{2533}\u{2513}\n\u{2523}\u{254B}\u{2524}\n\u{2514}\u{2534}\u{2518}"
    );
    assert_eq!(decode_to_bytes(&text), vec![0xff, 0x3f, 0x00]);
    assert_eq!(layout.display_bytes(&[0xff, 0x3f]), text);
}

#[test]
fn estimate_is_the_capacity_of_a_filled_layout() {
    for width in 1..9 {
        for height in 1..9 {
            assert_eq!(
                BoxLayout::estimate_bits(width, height),
                BoxLayout::new(width, height).calculate_bits()
            );
        }
    }
    assert_eq!(BoxLayout::estimate_bits(1, 1), 0);
    assert_eq!(BoxLayout::estimate_bits(5, 1), 8);
    assert_eq!(BoxLayout::estimate_bits(10, 9), 322);
}

#[test]
fn growth_keeps_width_and_height_and_adds_capacity() {
    let sizes = [
        (1, 2, 2, 8),
        (2, 3, 3, 24),
        (3, 3, 3, 24),
        (5, 4, 4, 48),
        (8, 5, 5, 80),
        (13, 6, 6, 120),
        (21, 7, 7, 168),
        (40, 10, 9, 322),
    ];
    let mut last = (0, 0, 0);
    for (length, width, height, bits) in sizes {
        let bounds = BoxLayoutConfig {
            max_width: Some(100),
            max_height: Some(100),
            ..config()
        };
        let layout = layout_byte_length(length, Some(bounds)).unwrap();
        assert_eq!((layout.width(), layout.height()), (width, height));
        assert_eq!(layout.calculate_bits(), bits);
        assert!(layout.width() >= last.0 && layout.height() >= last.1);
        assert!(layout.calculate_bits() >= last.2);
        last = (layout.width(), layout.height(), layout.calculate_bits());
    }
}

#[test]
fn growth_follows_the_bounds_and_the_shape() {
    let narrow = BoxLayoutConfig { max_width: Some(4), ..config() };
    let layout = layout_byte_length(6, Some(narrow)).unwrap();
    assert_eq!((layout.width(), layout.height(), layout.calculate_bits()), (4, 4, 48));
    let low = BoxLayoutConfig {
        max_height: Some(3),
        aspect_ratio: Some(AspectRatio { rows: 2, columns: 1 }),
        ..config()
    };
    let layout = layout_byte_length(6, Some(low)).unwrap();
    assert_eq!((layout.width(), layout.height(), layout.calculate_bits()), (6, 3, 54));
    let wide = BoxLayoutConfig {
        aspect_ratio: Some(AspectRatio { rows: 1, columns: 3 }),
        ..config()
    };
    let layout = layout_byte_length(6, Some(wide)).unwrap();
    assert_eq!((layout.width(), layout.height(), layout.calculate_bits()), (7, 3, 64));
    let tall = BoxLayoutConfig {
        aspect_ratio: Some(AspectRatio { rows: 3, columns: 1 }),
        ..config()
    };
    let layout = layout_byte_length(6, Some(tall)).unwrap();
    assert_eq!((layout.width(), layout.height(), layout.calculate_bits()), (3, 6, 54));
    let small = BoxLayoutConfig { min_width: Some(1), min_height: Some(1), ..config() };
    let layout = layout_byte_length(3, Some(small)).unwrap();
    assert_eq!((layout.width(), layout.height()), (3, 3));
    assert_eq!(
        layout.display_bytes(&[7, 8, 9]),
        "\u{250F}\u{252D}\u{2510}\n\u{251C}\u{253E}\u{2528}\n\u{2514}\u{2535}\u{2518}"
    );
}

#[test]
fn blackouts_stay_and_show_their_text() {
    for length in [1usize, 4, 9, 30] {
        let boxed = BoxLayoutConfig {
            blackouts: vec![(1, 1, "Hi#".to_string()), (2, 1, "!".to_string())],
            ..config()
        };
        let layout = layout_byte_length(length, Some(boxed)).unwrap();
        assert_eq!(layout.get_blackout_at(1, 1), Some('H'));
        assert_eq!(layout.get_blackout_at(2, 1), Some('!'));
        assert_eq!(layout.get_blackout_at(3, 1), Some('#'));
        assert_eq!(layout.get_blackout_at(4, 1), None);
        for x in 1..4 {
            assert!(!layout.is_filled(x, 1));
            assert_eq!(layout.get_connections_at(x, 1), None);
        }
        assert!(layout.is_filled(4, 1));
        let bytes = vec![0x5au8; length];
        if layout.holds_bytes(length) {
            let text = layout.display_bytes(&bytes);
            let row: Vec<char> = text.lines().nth(1).unwrap().chars().collect();
            assert_eq!(&row[1..4], &['H', '!', '#']);
        }
    }
    let boxed = BoxLayoutConfig {
        blackouts: vec![(1, 1, "Hi#".to_string()), (2, 1, "!".to_string())],
        ..config()
    };
    let layout = layout_byte_length(4, Some(boxed)).unwrap();
    assert_eq!((layout.width(), layout.height(), layout.calculate_bits()), (5, 4, 42));
    let text = layout.display_bytes(&[1, 2, 3, 4]);
    assert_eq!(
        text,
        "\u{250D}\u{2500}\u{2500}\u{2500}\u{2512}\n\u{2502}H!#\u{2502}\n\u{2520}\u{252D}\u{252C}\u{252C}\u{2525}\n\u{2514}\u{2534}\u{2534}\u{2534}\u{2518}"
    );
    assert_eq!(decode_to_bytes(&text), vec![1, 2, 3, 4, 0]);
}

#[test]
fn text_is_measured_in_bytes() {
    let boxed = BoxLayoutConfig {
        blackouts: vec![(0, 0, "\u{00E9}\u{00E9}".to_string())],
        ..config()
    };
    let layout = layout_byte_length(1, Some(boxed)).unwrap();
    assert_eq!((layout.width(), layout.height()), (5, 2));
    assert_eq!(layout.get_blackout_at(1, 0), Some('\u{00E9}'));
    assert!(layout.is_filled(2, 0));
}

#[test]
fn no_glyph_is_in_two_families() {
    let families = [
        TOP_LEFT, TOP_RIGHT, BOTTOM_LEFT, BOTTOM_RIGHT, LEFT, RIGHT, TOP, BOTTOM, CROSS,
        HORIZONTAL, VERTICAL,
    ];
    let mut seen = HashSet::new();
    let mut count = 0;
    for family in families {
        for glyph in family.chars() {
            assert!(seen.insert(glyph));
            count += 1;
        }
    }
    assert_eq!(count, 72);
}

#[test]
fn every_glyph_is_found_as_its_point() {
    for class in CLASSES {
        let bits = class.get_bits();
        assert_eq!(class.family().chars().count(), 1 << bits);
        for point in 0..(1u8 << bits) {
            let glyph = class.get_character(point);
            assert_eq!(class.family().chars().nth(point as usize), Some(glyph));
            assert_eq!(glyph_symbol(glyph), Some((point, bits)));
            assert_eq!(class.position_of(glyph), Some(point));
        }
        assert_eq!(class.position_of('x'), None);
    }
    assert_eq!(glyph_symbol(' '), None);
    assert_eq!(glyph_symbol('\n'), None);
    assert_eq!(glyph_symbol('#'), None);
    assert_eq!(glyph_symbol('\u{254C}'), None);
    assert_eq!(Connections::RightDown.get_character(0), '┌');
    assert_eq!(Connections::All.get_character(15), '╋');
    assert_eq!(Connections::RightLeft.get_character(1), '╼');
}

#[test]
fn classes_count_the_filled_neighbours() {
    let table = [
        (false, false, false, false, None),
        (true, false, false, false, None),
        (false, true, false, false, None),
        (false, false, true, false, None),
        (false, false, false, true, None),
        (true, true, false, false, Some(Connections::RightLeft)),
        (false, false, true, true, Some(Connections::DownUp)),
        (true, false, true, false, Some(Connections::RightDown)),
        (false, true, true, false, Some(Connections::LeftDown)),
        (true, false, false, true, Some(Connections::RightUp)),
        (false, true, false, true, Some(Connections::LeftUp)),
        (true, true, true, false, Some(Connections::RightLeftDown)),
        (true, true, false, true, Some(Connections::RightLeftUp)),
        (true, false, true, true, Some(Connections::RightDownUp)),
        (false, true, true, true, Some(Connections::LeftDownUp)),
        (true, true, true, true, Some(Connections::All)),
    ];
    for (right, left, down, up, class) in table {
        assert_eq!(Connections::classify(right, left, down, up), class);
        let count = [right, left, down, up].iter().filter(|filled| **filled).count();
        match class {
            Some(class) => assert_eq!(class.get_bits(), count),
            None => assert!(count < 2),
        }
    }
}

#[test]
fn sizing_and_drawing_errors() {
    let tight = BoxLayoutConfig { max_width: Some(3), max_height: Some(3), ..config() };
    assert!(layout_byte_length(100, Some(tight)).is_none());
    let tight = BoxLayoutConfig { max_width: Some(3), max_height: Some(3), ..config() };
    assert_eq!(
        generate_boxes(&[0u8; 100], Some(tight)),
        Err(EncodeError::LayoutUnsatisfiable)
    );
    assert!(layout_byte_length(0, None).is_none());
    assert_eq!(generate_boxes(&[], None), Err(EncodeError::LayoutUnsatisfiable));
    let line = BoxLayoutConfig { min_height: Some(1), max_height: Some(1), ..config() };
    let layout = layout_byte_length(1, Some(line)).unwrap();
    assert_eq!((layout.width(), layout.height(), layout.calculate_bits()), (5, 1, 8));
    assert!(!layout.holds_bytes(1));
    assert!(layout.holds_bytes(0));
    let line = BoxLayoutConfig { min_height: Some(1), max_height: Some(1), ..config() };
    assert_eq!(generate_boxes(&[1], Some(line)), Err(EncodeError::CapacityExceeded));
}

#[test]
fn configurations_are_checked() {
    assert!(check_config(&None));
    assert!(check_config(&Some(config())));
    assert!(!check_config(&Some(BoxLayoutConfig { min_width: Some(0), ..config() })));
    assert!(!check_config(&Some(BoxLayoutConfig { min_height: Some(0), ..config() })));
    assert!(check_config(&Some(BoxLayoutConfig { max_width: Some(0), ..config() })));
    assert!(!check_config(&Some(BoxLayoutConfig {
        blackouts: vec![(usize::MAX - 1, 0, "ab".to_string())],
        ..config()
    })));
    assert!(!check_config(&Some(BoxLayoutConfig {
        blackouts: vec![(0, usize::MAX, "".to_string())],
        ..config()
    })));
    assert!(check_config(&Some(BoxLayoutConfig {
        blackouts: vec![(3, 4, "ab".to_string())],
        ..config()
    })));
}

#[test]
fn layouts_of_pictures() {
    let layout = gen_layout("# #\n#\t.\u{3000}#");
    assert_eq!(layout.0, vec![vec![Cell::Filled, Cell::Filled], vec![
        Cell::Filled,
        Cell::Blackout('.'),
        Cell::Filled
    ]]);
    assert!(!layout.is_well_formed());
    assert_eq!(layout.height(), 2);
    assert!(gen_layout("##\n##").is_well_formed());
    assert!(!gen_layout("").is_well_formed());
    assert_eq!(gen_layout("").0, vec![Vec::<Cell>::new()]);
    assert_eq!(gen_layout("#\n").0, vec![vec![Cell::Filled], vec![]]);
    let marked = vec![('#', false), (' ', true), ('x', false), ('\n', true), ('y', true), ('#', false)];
    assert_eq!(marked_layout(&marked).0, vec![
        vec![Cell::Filled, Cell::Blackout('x')],
        vec![Cell::Filled]
    ]);
    assert_eq!(BoxLayout::new(3, 2).0, vec![vec![Cell::Filled; 3]; 2]);
    assert!(!BoxLayout::new(0, 2).is_well_formed());
    assert!(!BoxLayout::new(2, 0).is_well_formed());
}

#[test]
fn cells_and_neighbours() {
    let layout = gen_layout("###\n#.#\n###");
    assert_eq!((layout.width(), layout.height()), (3, 3));
    assert!(layout.is_filled(0, 0));
    assert!(!layout.is_filled(1, 1));
    assert_eq!(layout.get_blackout_at(1, 1), Some('.'));
    assert_eq!(layout.get_blackout_at(0, 0), None);
    assert_eq!(layout.get_blackout_at(3, 0), None);
    assert_eq!(layout.get_blackout_at(0, 3), None);
    assert_eq!(layout.get_connections_at(0, 0), Some(Connections::RightDown));
    assert_eq!(layout.get_connections_at(1, 0), Some(Connections::RightLeft));
    assert_eq!(layout.get_connections_at(2, 0), Some(Connections::LeftDown));
    assert_eq!(layout.get_connections_at(0, 1), Some(Connections::DownUp));
    assert_eq!(layout.get_connections_at(1, 1), None);
    assert_eq!(layout.get_connections_at(2, 2), Some(Connections::LeftUp));
    assert_eq!(layout.calculate_bits(), 16);
    assert!(layout.holds_bytes(2));
    assert!(!layout.holds_bytes(3));
    let spur = gen_layout("####\n####\n#XX#");
    assert_eq!(spur.get_connections_at(0, 2), None);
    assert_eq!(spur.calculate_bits(), 24);
    assert!(spur.holds_bytes(2));
    assert!(!spur.holds_bytes(3));
    let grid = gen_layout("#####\n#####\n###..\n###..");
    assert_eq!(
        grid.display_bytes(&[255, 255, 255, 255]),
        "\u{250F}\u{2533}\u{2533}\u{2533}\u{2513}\n\u{2523}\u{254B}\u{254B}\u{253B}\u{251B}\n\u{2523}\u{253C}\u{2524}..\n\u{2514}\u{2534}\u{2518}.."
    );
}

#[test]
fn clusters_that_are_no_single_glyph_are_passed_over() {
    assert_eq!(parse_boxes_to_points("┌\u{0301}┐"), vec![(0, 2)]);
    assert_eq!(parse_boxes_to_points("a┼b╋\r\n"), vec![(0, 4), (15, 4)]);
    assert_eq!(parse_boxes_to_points(""), vec![]);
    let clusters = vec![vec!['┏'], vec!['┏', '┏'], vec![], vec!['x'], vec!['┻']];
    assert_eq!(parse_clusters(&clusters), vec![(3, 2), (7, 3)]);
}

#[test]
fn points_pack_from_the_lowest_bit() {
    assert_eq!(box_points_to_bytes(&[(1, 2), (3, 3), (15, 4)]), vec![237]);
    assert_eq!(
        box_points_to_bytes(&[(1, 2), (3, 3), (15, 4), (5, 3), (2, 4)]),
        vec![237, 43]
    );
    assert_eq!(box_points_to_bytes(&[(3, 2), (3, 2), (3, 2)]), Vec::<u8>::new());
    assert_eq!(box_points_to_bytes(&[]), Vec::<u8>::new());
    assert_eq!(box_points_to_bytes(&[(255, 8), (0, 0), (1, 8)]), vec![255, 1]);
}
