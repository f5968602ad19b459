use lol_live::config::{parse_config, GameSettings};

fn texts(s: &GameSettings) -> Vec<&str> {
    s.hud_scale_texts.iter().map(|t| t.as_str()).collect()
}

#[test]
fn empty_file_gives_defaults() {
    let s = parse_config("");
    assert_eq!((s.game_width, s.game_height, s.window_mode), (1920, 1080, 1));
    assert!(s.hud_scale_texts.is_empty());
    let d = GameSettings::default();
    assert_eq!((d.game_width, d.game_height, d.window_mode), (1920, 1080, 1));
}

#[test]
fn reads_general_and_hud() {
    let s = parse_config("[General]\nWidth=2560\nHeight=1440\nWindowMode=2\n[HUD]\nGlobalScale=0.7500\n");
    assert_eq!((s.game_width, s.game_height, s.window_mode), (2560, 1440, 2));
    assert_eq!(texts(&s), vec!["0.7500"]);
}

#[test]
fn windows_line_endings_and_spaces() {
    let s = parse_config("  [General]  \r\n  Width = 1280 \r\n\tHeight=\t720\r\n");
    assert_eq!((s.game_width, s.game_height), (1280, 720));
}

#[test]
fn later_values_win() {
    let s = parse_config("[General]\nWidth=1024\nWidth=800\n[HUD]\nGlobalScale=1\nGlobalScale=0.5\n");
    assert_eq!(s.game_width, 800);
    assert_eq!(texts(&s), vec!["1", "0.5"]);
}

#[test]
fn unparsable_values_keep_the_previous_one() {
    let s = parse_config("[General]\nWidth=1600\nWidth=-5\nHeight=abc\nWindowMode=4294967296\nWidth=\n");
    assert_eq!((s.game_width, s.game_height, s.window_mode), (1600, 1080, 1));
    let s = parse_config("[General]\nWidth=+1366\nHeight=4294967295\n");
    assert_eq!((s.game_width, s.game_height), (1366, u32::MAX));
}

#[test]
fn keys_count_only_in_their_section() {
    let s = parse_config("Width=10\n[HUD]\nWidth=11\n[Other]\nGlobalScale=2\nWindowMode=0\n[General]\nGlobalScale=3\n");
    assert_eq!((s.game_width, s.window_mode), (1920, 1));
    assert!(s.hud_scale_texts.is_empty());
}

#[test]
fn section_names_are_exact() {
    let s = parse_config("[ General ]\nWidth=10\n[general]\nHeight=20\n[General\nWindowMode=7\n");
    assert_eq!((s.game_width, s.game_height, s.window_mode), (1920, 1080, 1));
}

#[test]
fn value_is_split_at_first_equals() {
    let s = parse_config("[HUD]\nGlobalScale = a=b \nGlobalScale\n=1\n");
    assert_eq!(texts(&s), vec!["a=b"]);
}

#[test]
fn empty_section_header_and_no_trailing_newline() {
    let s = parse_config("[General]\n[]\nWidth=5\n[General]\nHeight=6");
    assert_eq!((s.game_width, s.game_height), (1920, 6));
}

#[test]
fn last_line_sets_each_general_setting() {
    let s = parse_config("[General]\nHeight=900\nWindowMode=0\nWidth=1600\nHeight=1050\nWindowMode=2\n");
    assert_eq!(s.game_width, 1600);
    assert_eq!(s.game_height, 1050);
    assert_eq!(s.window_mode, 2);
    assert!(texts(&s).is_empty());
}
