use m3u_splitter::{output_file_name, parse_m3u, render_group, Channel};

fn channel(extinf: &str, url: &str, group: &str) -> Channel {
    Channel {
        extinf_line: extinf.to_string(),
        url: url.to_string(),
        group_name: group.to_string(),
    }
}

#[test]
fn test_write_group_file() {
    let channels = vec![
        channel(
            r#"#EXTINF:-1 group-title="Sports" tvg-id="channel1",Sports Channel"#,
            "http://example.com/sports.m3u8",
            "Sports",
        ),
        channel(
            r#"#EXTINF:-1 group-title="Sports" tvg-id="channel2",Sports Channel 2"#,
            "http://example.com/sports2.m3u8",
            "Sports",
        ),
    ];

    assert_eq!(output_file_name("Sports"), "Sports.m3u");
    let content = render_group(&channels);
    assert!(content.starts_with("#EXTM3U\n"));
    assert!(content.contains("http://example.com/sports.m3u8"));
    assert!(content.contains("http://example.com/sports2.m3u8"));
}

#[test]
fn test_write_group_file_sanitized_name() {
    let channels = vec![channel(
        r#"#EXTINF:-1 group-title="Kids & Family" tvg-id="channel1",Kids Channel"#,
        "http://example.com/kids.m3u8",
        "Kids & Family",
    )];
    assert_eq!(output_file_name("Kids & Family"), "Kids__Family.m3u");
    assert!(render_group(&channels).contains("http://example.com/kids.m3u8"));
}

#[test]
fn test_write_group_file_non_ascii_name() {
    let channels = vec![channel(
        r#"#EXTINF:-1 group-title="Café" tvg-id="channel1",Cafe Channel"#,
        "http://example.com/cafe.m3u8",
        "Café",
    )];
    assert_eq!(output_file_name("Café"), "Caf.m3u");
    assert!(render_group(&channels).contains("Cafe Channel"));
}

#[test]
fn render_is_header_then_lines_in_order() {
    let channels = vec![
        channel("#EXTINF:-1,B", "http://b", "G"),
        channel("#EXTINF:-1,A", "http://a", "G"),
    ];
    assert_eq!(
        render_group(&channels),
        "#EXTM3U\n#EXTINF:-1,B\nhttp://b\n#EXTINF:-1,A\nhttp://a\n"
    );
}

#[test]
fn render_empty_group_is_header_only() {
    assert_eq!(render_group(&Vec::new()), "#EXTM3U\n");
}

#[test]
fn rendering_parsed_entries_parses_back_to_them() {
    let text = "#EXTM3U\r\n  #EXTINF:-1 group-title=\"A\",One \nhttp://a\nstray\n#EXTINF:-1,Two\n#EXTINF:-1,Three\n";
    let first = parse_m3u(text);
    let again = parse_m3u(&render_group(&first));
    assert_eq!(first.len(), 2);
    assert_eq!(again.len(), first.len());
    for (a, b) in first.iter().zip(again.iter()) {
        assert_eq!(a.extinf_line, b.extinf_line);
        assert_eq!(a.url, b.url);
        assert_eq!(a.group_name, b.group_name);
    }
}
