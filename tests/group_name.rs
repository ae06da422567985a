use m3u_splitter::parse_group_name;

#[test]
fn test_parse_group_name_double_quotes() {
    let line = r#"#EXTINF:-1 group-title="Sports" tvg-id="channel1",Channel Name"#;
    assert_eq!(parse_group_name(line), Some("Sports".to_string()));
}

#[test]
fn test_parse_group_name_single_quotes() {
    let line = r#"#EXTINF:-1 group-title='News' tvg-id="channel2",Another Channel"#;
    assert_eq!(parse_group_name(line), Some("News".to_string()));
}

#[test]
fn test_parse_group_name_with_spaces() {
    let line = r#"#EXTINF:-1 group-title="Kids & Family" tvg-id="channel3",Kids Channel"#;
    assert_eq!(parse_group_name(line), Some("Kids & Family".to_string()));
}

#[test]
fn test_parse_group_name_missing() {
    let line = r#"#EXTINF:-1 tvg-id="channel4",Channel Without Group"#;
    assert_eq!(parse_group_name(line), None);
}

#[test]
fn test_parse_group_name_empty() {
    let line = r#"#EXTINF:-1 group-title="" tvg-id="channel5",Empty Group"#;
    assert_eq!(parse_group_name(line), Some("".to_string()));
}

#[test]
fn test_parse_group_name_special_characters() {
    let line = r#"#EXTINF:-1 group-title="Café & Música" tvg-id="channel6",Special"#;
    assert_eq!(parse_group_name(line), Some("Café & Música".to_string()));
}

#[test]
fn double_quotes_are_tried_before_single_quotes() {
    let line = r#"#EXTINF:-1 tvg='x' group-title='Single' group-title="Double",N"#;
    assert_eq!(parse_group_name(line), Some("Double".to_string()));
}

#[test]
fn first_occurrence_wins() {
    let line = r#"#EXTINF:-1 group-title="A" group-title="B",N"#;
    assert_eq!(parse_group_name(line), Some("A".to_string()));
}

#[test]
fn unclosed_double_quote_falls_back_to_single_quotes() {
    let line = r#"#EXTINF:-1 group-title='Film' group-title="open"#;
    assert_eq!(parse_group_name(line), Some("Film".to_string()));
}

#[test]
fn unclosed_quote_without_alternative_gives_none() {
    let line = r#"#EXTINF:-1 group-title="open,Name"#;
    assert_eq!(parse_group_name(line), None);
}

#[test]
fn unicode_only_title_is_kept() {
    let line = "#EXTINF:-1 group-title='北京',Name";
    assert_eq!(parse_group_name(line), Some("北京".to_string()));
}
