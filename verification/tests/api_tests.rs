use lol_live::api::{find_creep_score, PlayerScore};

fn player(name: Option<&str>, cs: Option<i64>) -> PlayerScore {
    PlayerScore { summoner_name: name.map(|s| s.to_string()), creep_score: cs }
}

#[test]
fn finds_the_active_player() {
    let players = vec![player(Some("Ally"), Some(10)), player(Some("Me"), Some(87)), player(Some("Foe"), Some(3))];
    assert_eq!(find_creep_score("Me", &players), Some(87));
}

#[test]
fn missing_player_or_score() {
    let players = vec![player(None, Some(1)), player(Some("Me"), None), player(Some("Me"), Some(5))];
    assert_eq!(find_creep_score("Me", &players), None);
    assert_eq!(find_creep_score("Nobody", &players), None);
    assert_eq!(find_creep_score("me", &players), None);
    assert_eq!(find_creep_score("Me", &vec![]), None);
}

#[test]
fn names_compare_by_characters() {
    let players = vec![player(Some("Mé"), Some(2)), player(Some("Me "), Some(4)), player(Some("Mé"), Some(6))];
    assert_eq!(find_creep_score("Mé", &players), Some(2));
    assert_eq!(find_creep_score("Me", &players), None);
}
