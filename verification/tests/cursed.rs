use glyph_codec::{
    bytes_to_diactrics_points, diatric_points_to_bytes, is_diactric, parse_curse_to_points,
    CurseError, CursedConfig,
};
use rand::random;

#[test]
fn test_is_diatric() {
    assert!(is_diactric('̀'));
    assert!(is_diactric('ͅ'));
    assert!(!is_diactric('a'));
}

#[test]
fn copy_and_display_test() {
    let s = "T\u{0300}\u{0300}\u{0300}\u{200D}\u{0301}\u{0301}\u{0301}\u{200D}\u{0302}\u{0302}\u{0302}\u{200D}\u{0300}\u{0300}\u{0300}e\u{0300}s\u{200D}t";
    println!("{}", s);
    // From terminal
    let s_2 = "T̀̀̀‍́́́‍̂̂̂‍̀̀̀ès‍t";
    assert_eq!(s, s_2);
    // From Discord
    let s_3 = "T̀̀̀‍́́́‍̂̂̂‍̀̀̀ès‍t";
    assert_eq!(s, s_3);
}

#[test]
fn test_bytes_to_diactrics_points() {
    let points = bytes_to_diactrics_points(&[0, 0, 0, 0]);
    assert_eq!(points, vec![0, 0, 0, 0, 0]);
    let points = bytes_to_diactrics_points(&[0, 0, 0, 0, 0]);
    assert_eq!(points, vec![0, 0, 0, 0, 0, 0, 0]);
}

#[test]
fn test_diatric_points_to_bytes() {
    let bytes = diatric_points_to_bytes(vec![0, 0, 0, 0, 0]);
    assert_eq!(bytes, vec![0, 0, 0, 0]);
    let bytes = diatric_points_to_bytes(vec![0, 0, 0, 0, 0, 0, 0]);
    assert_eq!(bytes, vec![0, 0, 0, 0, 0]);
}

#[test]
fn test_bytes_to_bytes() {
    let bytes = [166];
    let points = bytes_to_diactrics_points(&bytes);
    let bytes_2 = diatric_points_to_bytes(points);
    assert_eq!(bytes.to_vec(), bytes_2);

    let bytes = [98, 205, 238];
    let points = bytes_to_diactrics_points(&bytes);
    let bytes_2 = diatric_points_to_bytes(points);
    assert_eq!(bytes.to_vec(), bytes_2);

    let bytes = [62, 10, 105, 133, 98, 205, 238];
    let points = bytes_to_diactrics_points(&bytes);
    let bytes_2 = diatric_points_to_bytes(points);
    assert_eq!(bytes.to_vec(), bytes_2);
}

#[test]
fn discord_cursed() {
    let curse_config = CursedConfig::discord();
    let text = "Curse";
    let bytes = (0..16).collect::<Vec<_>>();
    let curse = curse_config.generate_curse(text, &bytes).unwrap();
    let points = parse_curse_to_points(&curse);
    let bytes_2 = diatric_points_to_bytes(points);
    assert_eq!(bytes, bytes_2);
    // Copied to Discord, then copy+pasted back.
    let pasted = "C͓̝̅‍̀ù͗̍‍̀r̰̀͛‍ͭsͪ̀͟‍͟e̟ͥ͝‍́";
    assert_eq!(curse, pasted);
}

#[test]
fn overly_cursed() {
    let curse_config = CursedConfig::new();
    let text = "Comments & code";
    let bytes = (0..100).collect::<Vec<_>>();
    let curse = curse_config.generate_curse(text, &bytes).unwrap();
    let points = parse_curse_to_points(&curse);
    let bytes_2 = diatric_points_to_bytes(points);
    assert_eq!(bytes, bytes_2);
}

#[test]
fn stress_test() {
    let curse_config = CursedConfig::new();
    for _ in 0..1000 {
        let bytes: Vec<u8> = (0..random::<u8>()).map(|_| random::<u8>()).collect();
        let points = bytes_to_diactrics_points(&bytes);
        let bytes_2 = diatric_points_to_bytes(points);
        assert_eq!(bytes, bytes_2);
        let text = "Comments & code";
        let curse = curse_config.generate_curse(text, &bytes).unwrap();
        let points_2 = parse_curse_to_points(&curse);
        let bytes_3 = diatric_points_to_bytes(points_2);
        assert_eq!(bytes, bytes_3);
    }
}

#[test]
fn four_bytes_give_five_digits() {
    assert_eq!(bytes_to_diactrics_points(&[0, 0, 0, 1]), vec![1, 0, 0, 0, 0]);
    assert_eq!(bytes_to_diactrics_points(&[0, 0, 0, 112]), vec![0, 1, 0, 0, 0]);
    assert_eq!(
        bytes_to_diactrics_points(&[255, 255, 255, 255]),
        vec![31, 18, 8, 33, 27]
    );
    assert_eq!(bytes_to_diactrics_points(&[1]), vec![1, 0]);
    assert_eq!(bytes_to_diactrics_points(&[1, 0]), vec![32, 2, 0]);
    assert_eq!(bytes_to_diactrics_points(&[1, 0, 0]), vec![16, 25, 5, 0]);
    assert_eq!(bytes_to_diactrics_points(&[]), Vec::<u8>::new());
}

#[test]
fn five_digits_give_four_bytes() {
    assert_eq!(
        diatric_points_to_bytes(vec![31, 18, 8, 33, 27]),
        vec![255, 255, 255, 255]
    );
    assert_eq!(diatric_points_to_bytes(vec![1, 0]), vec![1]);
    assert_eq!(diatric_points_to_bytes(vec![32, 2, 0]), vec![1, 0]);
    assert_eq!(diatric_points_to_bytes(vec![16, 25, 5, 0]), vec![1, 0, 0]);
    assert_eq!(diatric_points_to_bytes(vec![]), Vec::<u8>::new());
}

#[test]
fn marks_are_read_and_letters_passed_over() {
    assert_eq!(
        parse_curse_to_points("a\u{0300}b\u{036F}c\u{0370}\u{02FF}"),
        vec![0, 111]
    );
    assert_eq!(parse_curse_to_points("plain"), Vec::<u8>::new());
}

#[test]
fn can_curse_counts_whole_groups() {
    let open = CursedConfig::new();
    assert!(open.can_curse(0, 1000));
    let bounded = CursedConfig::new().max_diactrics(10);
    assert!(bounded.can_curse(1, 11));
    assert!(!bounded.can_curse(1, 12));
    let runs = CursedConfig::new().max_diactrics_per_letter(2);
    assert!(runs.can_curse(6, 8));
    assert!(!runs.can_curse(5, 8));
    assert!(runs.with_zwj_break().can_curse(0, 8));
}

#[test]
fn curse_errors() {
    let bounded = CursedConfig::new().max_diactrics(4);
    assert_eq!(
        bounded.generate_curse("text", &[1, 2, 3, 4]),
        Err(CurseError::CannotCurse)
    );
    let runs = CursedConfig::new().max_diactrics_per_letter(1);
    assert_eq!(
        runs.generate_curse("ab", &[1, 2, 3]),
        Err(CurseError::TooManyDiactrics)
    );
    let fits = CursedConfig::new().max_diactrics_per_letter(3);
    assert_eq!(
        fits.generate_curse("ab", &[1, 2, 3]),
        Ok("a\u{0353}\u{031D}b\u{0305}\u{0300}".to_string())
    );
}

#[test]
fn breaks_follow_full_runs() {
    let config = CursedConfig::new()
        .max_diactrics_per_letter(2)
        .with_zwsp_break();
    assert_eq!(
        config.generate_curse("a", &[1, 2, 3]),
        Ok("a\u{0353}\u{031D}\u{200B}\u{0305}\u{0300}\u{200B}".to_string())
    );
    assert_eq!(config.generate_curse("", &[1, 2, 3]), Ok(String::new()));
}
