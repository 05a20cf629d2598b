use glyph_codec::{
    bytes_to_points, generate_runes, parse_runes, parse_runes_to_points, points_to_bytes,
    try_generate_runes, ALPHA_NUM, FUTHARK,
};

#[test]
fn test_parse_runes_to_points() {
    assert_eq!(parse_runes_to_points("ᚠᚢ", FUTHARK), vec![0, 1]);
    assert_eq!(parse_runes_to_points("ᚦᚨ", FUTHARK), vec![2, 3]);
    assert_eq!(parse_runes_to_points("AB", ALPHA_NUM), vec![0, 1]);
    assert_eq!(parse_runes_to_points("CD", ALPHA_NUM), vec![2, 3]);
}

#[test]
fn test_parse_runes() {
    assert_eq!(parse_runes("ᚠᚠ", FUTHARK), vec![0b00000]);
    assert_eq!(parse_runes("ᚢᚠᛌ", FUTHARK), vec![0b00001]);
    assert_eq!(parse_runes("ᚠᛁᚢᚠ", FUTHARK), vec![64, 5]);
    assert_eq!(parse_runes("AKBA", ALPHA_NUM), vec![64, 5]);
    assert_eq!(
        parse_runes("AKBAAKBAAKBA", ALPHA_NUM),
        vec![64, 5, 0, 84, 0, 64, 5]
    );
}

#[test]
fn test_generate_runes() {
    assert_eq!(generate_runes(&[0b00000000], FUTHARK), "ᚠᚠ");
    assert_eq!(generate_runes(&[0b00000001], FUTHARK), "ᚢᚠ");
    assert_eq!(generate_runes(&[0b100000], FUTHARK), "ᚠᚢ");
    assert_eq!(generate_runes(&[64, 5], ALPHA_NUM), "AKBA");
    assert_eq!(
        generate_runes(&[64, 5, 0, 84, 0, 64, 5], FUTHARK),
        "ᚠᛁᚢᚠᚠᛁᚢᚠᚠᛁᚢᚠ"
    );
}

#[test]
fn test_bytes_and_such() {
    let test = ("Hello".to_string(), 42u32);
    assert_eq!(test.0.as_bytes(), b"Hello");
    assert_eq!(test.1.to_be_bytes(), [0, 0, 0, 42]);
    assert_eq!(postcard::to_allocvec(&test).unwrap(), b"\x05Hello*");
    let json = "{\"comments\":\"Hello\",\"code\":42}";
    assert_eq!(
        generate_runes(&postcard::to_allocvec(&json).unwrap(), FUTHARK),
        "ᚪᚡᚪᚱᛖᛒᚩᛈᛈᛃᚥᛁᚷᛟᛒᛉᛗᛗᚺᛚᚨᛒᚠᚾᚲᚨᚥᚡᛞᛟᚾᚱᛇᛒᚺᚷᛞᛟᛒᛇᚲᛗᚺᛚᚨᚤᚺᚷᚩᚨ"
    );
}

#[test]
fn test_points() {
    let hello = b"Hello";
    assert_eq!(bytes_to_points(hello), vec![8, 10, 25, 24, 6, 22, 29, 13]);
    let hello_str = b"\x05Hello*";
    assert_eq!(
        bytes_to_points(hello_str),
        vec![5, 0, 18, 10, 6, 22, 17, 13, 15, 19, 10, 0]
    );
}

#[test]
fn test_create_runes() {
    let test = ("Hello".to_string(), 42u32);
    let data = postcard::to_allocvec(&test).unwrap();
    assert_eq!(generate_runes(&data, FUTHARK), "ᚲᚠᛖᛁᚷᛞᛒᛈᛊᛗᛁᚠ");
    assert_eq!(generate_runes(&data, ALPHA_NUM), "FASKGWRNPTKA");
    assert_eq!(
        generate_runes(&postcard::to_allocvec(&"C+c").unwrap(), FUTHARK),
        "ᚨᚡᛏᛞᛖᛒᚢ"
    );
}

#[test]
fn runes_round_trip_whole_groups() {
    let bytes = [1u8, 2, 3, 4, 5, 250, 0, 17, 99, 255];
    let runes = generate_runes(&bytes, ALPHA_NUM);
    assert_eq!(runes.chars().count(), 16);
    assert_eq!(parse_runes(&runes, ALPHA_NUM), bytes.to_vec());
}

#[test]
fn runes_stop_at_the_line_feed() {
    assert_eq!(parse_runes_to_points("ᚠᚢ\nᚦ", FUTHARK), vec![0, 1, 32]);
    assert_eq!(parse_runes_to_points("AB\nC", ALPHA_NUM), vec![0, 1, 2]);
}

#[test]
fn points_above_the_alphabet_spill_into_the_next() {
    assert_eq!(points_to_bytes(vec![32, 0, 0]), vec![32]);
    assert_eq!(points_to_bytes(vec![255, 0]), vec![255]);
    assert_eq!(points_to_bytes(vec![31, 31]), vec![255]);
    assert_eq!(points_to_bytes(vec![]), Vec::<u8>::new());
}

#[test]
fn short_alphabet_gives_no_runes() {
    assert_eq!(try_generate_runes(&[255], "AB"), None);
    assert_eq!(try_generate_runes(&[0], "AB"), Some("AA".to_string()));
    assert_eq!(try_generate_runes(&[], ""), Some(String::new()));
}
