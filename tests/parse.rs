use m3u_splitter::parse_m3u;

#[test]
fn test_parse_m3u_file_basic() {
    let content = r#"#EXTM3U
#EXTINF:-1 group-title="Sports" tvg-id="channel1",Sports Channel 1
http://example.com/sports1.m3u8
#EXTINF:-1 group-title="News" tvg-id="channel2",News Channel 1
http://example.com/news1.m3u8
#EXTINF:-1 group-title="Sports" tvg-id="channel3",Sports Channel 2
http://example.com/sports2.m3u8
"#;

    let channels = parse_m3u(content);
    assert_eq!(channels.len(), 3);
    assert_eq!(channels[0].group_name, "Sports");
    assert_eq!(channels[0].url, "http://example.com/sports1.m3u8");
    assert_eq!(channels[1].group_name, "News");
    assert_eq!(channels[2].group_name, "Sports");
}

#[test]
fn test_parse_m3u_file_missing_group() {
    let content = r#"#EXTM3U
#EXTINF:-1 tvg-id="channel1",Channel Without Group
http://example.com/channel1.m3u8
"#;

    let channels = parse_m3u(content);
    assert_eq!(channels.len(), 1);
    assert_eq!(channels[0].group_name, "Unknown");
}

#[test]
fn test_parse_m3u_file_empty() {
    let channels = parse_m3u("#EXTM3U\n");
    assert_eq!(channels.len(), 0);
}

#[test]
fn parse_trims_lines_and_handles_crlf() {
    let content = "#EXTM3U\r\n  #EXTINF:-1 group-title=\"A\",One  \r\n\thttp://a/1 \r\n";
    let channels = parse_m3u(content);
    assert_eq!(channels.len(), 1);
    assert_eq!(channels[0].extinf_line, "#EXTINF:-1 group-title=\"A\",One");
    assert_eq!(channels[0].url, "http://a/1");
    assert_eq!(channels[0].group_name, "A");
}

#[test]
fn parse_drops_descriptor_on_last_line() {
    let content = "#EXTM3U\n#EXTINF:-1 group-title=\"A\",One\nhttp://a/1\n#EXTINF:-1,Dangling\n";
    let channels = parse_m3u(content);
    assert_eq!(channels.len(), 1);
    assert_eq!(channels[0].url, "http://a/1");
}

#[test]
fn parse_takes_next_line_as_locator_whatever_it_holds() {
    let content = "#EXTINF:-1,First\n#EXTINF:-1,Second\nhttp://b\n";
    let channels = parse_m3u(content);
    assert_eq!(channels.len(), 1);
    assert_eq!(channels[0].extinf_line, "#EXTINF:-1,First");
    assert_eq!(channels[0].url, "#EXTINF:-1,Second");
    assert_eq!(channels[0].group_name, "Unknown");
}

#[test]
fn parse_skips_stray_lines_and_empty_text() {
    assert_eq!(parse_m3u("").len(), 0);
    let content = "# comment\n\nhttp://stray\n#EXTINF:-1 group-title='B',Two\nhttp://b/2";
    let channels = parse_m3u(content);
    assert_eq!(channels.len(), 1);
    assert_eq!(channels[0].group_name, "B");
    assert_eq!(channels[0].url, "http://b/2");
}

#[test]
fn parse_keeps_empty_line_after_descriptor_as_locator() {
    let content = "#EXTINF:-1 group-title=\"\",E\n\nhttp://x\n";
    let channels = parse_m3u(content);
    assert_eq!(channels.len(), 1);
    assert_eq!(channels[0].url, "");
    assert_eq!(channels[0].group_name, "");
}
