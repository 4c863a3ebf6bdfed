use lottery_stats::game_spec::{real_data_games, Component};

#[test]
fn field_counts_are_correct() {
    let games = real_data_games();
    let by = |k: &str| games.iter().find(|g| g.key == k).unwrap().field_count();
    assert_eq!(by("ssq"), 9);
    assert_eq!(by("dlt"), 9);
    assert_eq!(by("d3"), 5);
    assert_eq!(by("pl5"), 7);
    assert_eq!(by("qxc"), 9);
    assert_eq!(by("kl8"), 22);
}

#[test]
fn all_eight_games_present() {
    assert_eq!(real_data_games().len(), 8);
}

#[test]
fn component_widths() {
    let pool = Component::Pool { label: "红球", size: 33, pick: 6 };
    assert_eq!(pool.width(), 6);
    let digits = Component::Digits { label: "直选", bases: vec![10, 10, 10, 10, 10, 10, 15] };
    assert_eq!(digits.width(), 7);
}

#[test]
fn only_welfare_games_are_fetchable() {
    let games = real_data_games();
    let fetchable: Vec<&str> = games.iter().filter(|g| g.fetch.is_some()).map(|g| g.key).collect();
    assert_eq!(fetchable, vec!["ssq", "d3", "qlc", "kl8"]);
    let d3 = games.iter().find(|g| g.key == "d3").unwrap();
    assert_eq!(d3.fetch.as_ref().unwrap().name_param, "3d");
}
