use m3u_splitter::{
    group_channels, output_file_name, parse_m3u, plan_run, render_group, ChannelGroup, RunAction,
};

fn find<'a>(groups: &'a [ChannelGroup], name: &str) -> &'a ChannelGroup {
    groups.iter().find(|g| g.name == name).expect("group should exist")
}

fn file_for<'a>(groups: &'a [ChannelGroup], file: &str) -> Option<&'a ChannelGroup> {
    groups.iter().find(|g| output_file_name(&g.name) == file)
}

#[test]
fn test_basic_splitting() {
    let m3u_content = r#"#EXTM3U
#EXTINF:-1 group-title="Sports" tvg-id="sports1",Sports Channel 1
http://example.com/sports1.m3u8
#EXTINF:-1 group-title="News" tvg-id="news1",News Channel 1
http://example.com/news1.m3u8
#EXTINF:-1 group-title="Sports" tvg-id="sports2",Sports Channel 2
http://example.com/sports2.m3u8
#EXTINF:-1 group-title="Movies" tvg-id="movie1",Movie Channel 1
http://example.com/movie1.m3u8
"#;
    let channels = parse_m3u(m3u_content);
    assert_eq!(plan_run(channels.len(), false), RunAction::WriteFiles);
    let groups = group_channels(&channels);

    let sports = file_for(&groups, "Sports.m3u").expect("Sports.m3u should exist");
    let news = file_for(&groups, "News.m3u").expect("News.m3u should exist");
    let movies = file_for(&groups, "Movies.m3u").expect("Movies.m3u should exist");

    let sports_content = render_group(&sports.channels);
    assert!(sports_content.starts_with("#EXTM3U"));
    assert_eq!(sports_content.matches("http://example.com/sports").count(), 2);

    let news_content = render_group(&news.channels);
    assert!(news_content.starts_with("#EXTM3U"));
    assert_eq!(news_content.matches("http://example.com/news").count(), 1);

    let movies_content = render_group(&movies.channels);
    assert!(movies_content.starts_with("#EXTM3U"));
    assert_eq!(movies_content.matches("http://example.com/movie").count(), 1);
}

#[test]
fn test_dry_run_mode() {
    let m3u_content = r#"#EXTM3U
#EXTINF:-1 group-title="Sports" tvg-id="sports1",Sports Channel 1
http://example.com/sports1.m3u8
#EXTINF:-1 group-title="News" tvg-id="news1",News Channel 1
http://example.com/news1.m3u8
"#;
    let channels = parse_m3u(m3u_content);
    assert_eq!(plan_run(channels.len(), true), RunAction::ReportOnly);
    let groups = group_channels(&channels);
    assert_eq!(groups.len(), 2);
    assert_eq!(find(&groups, "Sports").channels.len(), 1);
    assert_eq!(find(&groups, "News").channels.len(), 1);
}

#[test]
fn test_missing_group_title() {
    let m3u_content = r#"#EXTM3U
#EXTINF:-1 tvg-id="channel1",Channel Without Group
http://example.com/channel1.m3u8
#EXTINF:-1 group-title="Sports" tvg-id="sports1",Sports Channel
http://example.com/sports1.m3u8
"#;
    let channels = parse_m3u(m3u_content);
    let groups = group_channels(&channels);
    assert!(
        file_for(&groups, "Unknown.m3u").is_some(),
        "Unknown.m3u should exist for channels without group-title"
    );
    assert!(file_for(&groups, "Sports.m3u").is_some(), "Sports.m3u should exist");
}

#[test]
fn test_special_characters_in_group_name() {
    let m3u_content = r#"#EXTM3U
#EXTINF:-1 group-title="Kids & Family" tvg-id="kids1",Kids Channel
http://example.com/kids1.m3u8
#EXTINF:-1 group-title="Café" tvg-id="cafe1",Cafe Channel
http://example.com/cafe1.m3u8
"#;
    let channels = parse_m3u(m3u_content);
    let groups = group_channels(&channels);
    assert!(file_for(&groups, "Kids__Family.m3u").is_some(), "Kids__Family.m3u should exist");
    assert!(file_for(&groups, "Caf.m3u").is_some(), "Caf.m3u should exist (non-ASCII removed)");
}

#[test]
fn test_empty_m3u_file() {
    let channels = parse_m3u("#EXTM3U\n");
    assert_eq!(channels.len(), 0);
    assert_eq!(plan_run(channels.len(), false), RunAction::WarnNoChannels);
    assert_eq!(plan_run(channels.len(), true), RunAction::WarnNoChannels);
}

#[test]
fn three_entries_two_groups_keep_order() {
    let content = "#EXTM3U\n#EXTINF:-1 group-title=\"Sports\",S1\nhttp://s1\n#EXTINF:-1 group-title=\"News\",N1\nhttp://n1\n#EXTINF:-1 group-title=\"Sports\",S2\nhttp://s2\n";
    let groups = group_channels(&parse_m3u(content));
    assert_eq!(groups.len(), 2);
    assert_eq!(groups[0].name, "Sports");
    assert_eq!(groups[1].name, "News");
    assert_eq!(
        render_group(&groups[0].channels),
        "#EXTM3U\n#EXTINF:-1 group-title=\"Sports\",S1\nhttp://s1\n#EXTINF:-1 group-title=\"Sports\",S2\nhttp://s2\n"
    );
    assert_eq!(
        render_group(&groups[1].channels),
        "#EXTM3U\n#EXTINF:-1 group-title=\"News\",N1\nhttp://n1\n"
    );
}

#[test]
fn entry_without_title_goes_to_unknown_file() {
    let content = "#EXTINF:-1 tvg-id=\"c1\",Name\nhttp://c1\n";
    let groups = group_channels(&parse_m3u(content));
    assert_eq!(groups.len(), 1);
    assert_eq!(output_file_name(&groups[0].name), "Unknown.m3u");
    assert_eq!(
        render_group(&groups[0].channels),
        "#EXTM3U\n#EXTINF:-1 tvg-id=\"c1\",Name\nhttp://c1\n"
    );
}

#[test]
fn grouping_is_case_sensitive() {
    let content = "#EXTINF:-1 group-title=\"news\",a\nu1\n#EXTINF:-1 group-title=\"News\",b\nu2\n";
    let groups = group_channels(&parse_m3u(content));
    assert_eq!(groups.len(), 2);
    assert_eq!(groups[0].name, "news");
    assert_eq!(groups[1].name, "News");
}

#[test]
fn grouping_empty_input_gives_no_groups() {
    assert_eq!(group_channels(&Vec::new()).len(), 0);
}

#[test]
fn plan_run_with_entries() {
    assert_eq!(plan_run(3, false), RunAction::WriteFiles);
    assert_eq!(plan_run(1, true), RunAction::ReportOnly);
}
