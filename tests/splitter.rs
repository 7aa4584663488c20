use m3u_splitter::{
    entry_text, extract_entries, generate_group_filename, header_step, is_url, m3u_header,
    parse_entry_line, process_m3u_content, sanitize_filename, to_title_case, updated_file,
    with_header, join_words, split_words, EntryScanner, HeaderStep, PlaylistFiles, ProcessingStats,
};

const M3U_HEADER: &str = "#EXTM3U";
const DEFAULT_EMPTY_GROUP_FILENAME: &str = "ungrouped_channels";

fn chars(s: &str) -> Vec<char> {
    s.chars().collect()
}

fn count_of(stats: &ProcessingStats, group: &str) -> Option<usize> {
    stats
        .groups_created
        .iter()
        .find(|(g, _)| g == group)
        .map(|(_, n)| *n)
}

#[test]
fn test_to_title_case() {
    assert_eq!(to_title_case("sports"), "Sports");
    assert_eq!(to_title_case("news and entertainment"), "News And Entertainment");
    assert_eq!(to_title_case("MUSIC"), "Music");
    assert_eq!(to_title_case(""), "");
    assert_eq!(to_title_case("multiple   spaces"), "Multiple Spaces");
}

#[test]
fn test_sanitize_filename() {
    let test_cases = vec![
        ("Sports", "Sports"),
        ("News & Entertainment", "News _ Entertainment"),
        ("Movies/TV", "Movies_TV"),
        ("Music: Rock", "Music_ Rock"),
        ("Test*File", "Test_File"),
        ("Valid Name", "Valid Name"),
    ];

    for (input, expected) in test_cases {
        let result = sanitize_filename(input);
        assert_eq!(result, expected, "Failed for input: {}", input);
    }
}

#[test]
fn test_process_m3u_content() {
    let mut dir = PlaylistFiles::new();

    let m3u_content = r#"#EXTM3U
#EXTINF:-1 group-title="Sports",ESPN
https://example.com/espn.m3u8
#EXTINF:-1 group-title="News",CNN
https://example.com/cnn.m3u8
#EXTINF:-1 group-title="Sports",Fox Sports
https://example.com/foxsports.m3u8
"#;

    let stats = process_m3u_content(m3u_content, &mut dir);
    assert_eq!(stats.total_channels, 3);

    let sports_content = dir.content("Sports.m3u");
    let news_content = dir.content("News.m3u");
    assert!(sports_content.is_some());
    assert!(news_content.is_some());

    let sports_content = sports_content.unwrap();
    assert!(sports_content.contains(M3U_HEADER));
    assert!(sports_content.contains("ESPN"));
    assert!(sports_content.contains("Fox Sports"));

    let news_content = news_content.unwrap();
    assert!(news_content.contains(M3U_HEADER));
    assert!(news_content.contains("CNN"));
}

#[test]
fn test_empty_group_handling() {
    let mut dir = PlaylistFiles::new();

    let m3u_content = r#"#EXTM3U
#EXTINF:-1 group-title="",No Group Channel
https://example.com/nogroup.m3u8
"#;

    let stats = process_m3u_content(m3u_content, &mut dir);
    assert_eq!(stats.processed_channels, 1);

    let content = dir.content(&format!("{}.m3u", DEFAULT_EMPTY_GROUP_FILENAME));
    assert!(content.is_some());

    let content = content.unwrap();
    assert!(content.contains(M3U_HEADER));
    assert!(content.contains("No Group Channel"));
}

#[test]
fn test_extm3u_header_insertion() {
    let mut dir = PlaylistFiles::new();
    dir.put("Test.m3u", "some content without header".to_string());

    let m3u_content = r#"#EXTM3U
#EXTINF:-1 group-title="Test",Test Channel
https://example.com/test.m3u8
"#;

    let stats = process_m3u_content(m3u_content, &mut dir);
    assert_eq!(stats.processed_channels, 1);

    let content = dir.content("Test.m3u").unwrap();
    assert!(content.starts_with(M3U_HEADER));
}

#[test]
fn end_to_end_files_and_counts() {
    let mut dir = PlaylistFiles::new();
    let input = "#EXTM3U\n#EXTINF:-1 group-title=\"Sports\",ESPN\nhttps://example.com/espn.m3u8\n#EXTINF:-1 group-title=\"News\",CNN\nhttps://example.com/cnn.m3u8\n#EXTINF:-1 group-title=\"Sports\",Fox Sports\nhttps://example.com/foxsports.m3u8\n";
    let stats = process_m3u_content(input, &mut dir);
    assert_eq!(stats.total_channels, 3);
    assert_eq!(stats.processed_channels, 3);
    assert_eq!(stats.groups_created.len(), 2);
    assert_eq!(count_of(&stats, "Sports"), Some(2));
    assert_eq!(count_of(&stats, "News"), Some(1));
    assert_eq!(dir.len(), 2);
    assert_eq!(
        dir.content("Sports.m3u").unwrap(),
        "#EXTM3U\n#EXTINF:-1 group-title=\"Sports\",ESPN\nhttps://example.com/espn.m3u8\n#EXTINF:-1 group-title=\"Sports\",Fox Sports\nhttps://example.com/foxsports.m3u8\n"
    );
    assert_eq!(
        dir.content("News.m3u").unwrap(),
        "#EXTM3U\n#EXTINF:-1 group-title=\"News\",CNN\nhttps://example.com/cnn.m3u8\n"
    );
}

#[test]
fn empty_group_goes_to_fallback_file_with_header() {
    let mut dir = PlaylistFiles::new();
    let input = "#EXTINF:-1 group-title=\"\",No Group Channel\nhttps://example.com/nogroup.m3u8\n";
    let stats = process_m3u_content(input, &mut dir);
    assert_eq!(count_of(&stats, ""), Some(1));
    assert_eq!(dir.len(), 1);
    assert_eq!(
        dir.content("ungrouped_channels.m3u").unwrap(),
        "#EXTM3U\n#EXTINF:-1 group-title=\"\",No Group Channel\nhttps://example.com/nogroup.m3u8\n"
    );
}

#[test]
fn header_migration_keeps_old_content() {
    let mut dir = PlaylistFiles::new();
    dir.put("Test.m3u", "some content without header".to_string());
    let input = "#EXTINF:-1 group-title=\"Test\",Test Channel\nhttps://example.com/test.m3u8\n";
    process_m3u_content(input, &mut dir);
    assert_eq!(
        dir.content("Test.m3u").unwrap(),
        "#EXTM3U\nsome content without header#EXTINF:-1 group-title=\"Test\",Test Channel\nhttps://example.com/test.m3u8\n"
    );
}

#[test]
fn running_twice_writes_one_header() {
    let mut dir = PlaylistFiles::new();
    let input = "#EXTINF:-1 group-title=\"News\",CNN\nhttps://example.com/cnn.m3u8\n";
    process_m3u_content(input, &mut dir);
    process_m3u_content(input, &mut dir);
    let content = dir.content("News.m3u").unwrap();
    assert_eq!(content.matches(M3U_HEADER).count(), 1);
    assert_eq!(
        content,
        "#EXTM3U\n#EXTINF:-1 group-title=\"News\",CNN\nhttps://example.com/cnn.m3u8\n#EXTINF:-1 group-title=\"News\",CNN\nhttps://example.com/cnn.m3u8\n"
    );
}

#[test]
fn writer_twice_on_headed_file() {
    let first = updated_file("#EXTM3U\n", "entry one\nhttp://a\n");
    assert_eq!(first, "#EXTM3U\nentry one\nhttp://a\n");
    let second = updated_file(&first, "entry two\nhttp://b  \n");
    assert_eq!(second, "#EXTM3U\nentry one\nhttp://a\nentry two\nhttp://b\n");
}

#[test]
fn file_names_of_groups() {
    assert_eq!(generate_group_filename("sports"), "Sports.m3u");
    assert_eq!(generate_group_filename("news & entertainment"), "News _ Entertainment.m3u");
    assert_eq!(generate_group_filename("movies/tv"), "Movies_tv.m3u");
    assert_eq!(generate_group_filename(""), "ungrouped_channels.m3u");
    assert_eq!(generate_group_filename("   \t"), "ungrouped_channels.m3u");
    assert_eq!(generate_group_filename("a\\b:c\"d*e?f<g>h|i"), "A_b_c_d_e_f_g_h_i.m3u");
    assert_eq!(generate_group_filename("Sports"), generate_group_filename("Sports"));
}

#[test]
fn sanitized_names_hold_no_forbidden_character() {
    let name = sanitize_filename("\\/:\"*?<>|&ok");
    assert_eq!(name, "__________ok");
    for c in ['\\', '/', ':', '"', '*', '?', '<', '>', '|', '&'] {
        assert!(!name.contains(c));
    }
}

#[test]
fn title_case_of_unusual_words() {
    assert_eq!(to_title_case("  leading and trailing  "), "Leading And Trailing");
    assert_eq!(to_title_case("tab\tseparated\nwords"), "Tab Separated Words");
    assert_eq!(to_title_case("éCOLE"), "École");
    assert_eq!(to_title_case("straße"), "Straße");
    assert_eq!(to_title_case("ßig"), "SSig");
}

#[test]
fn header_steps() {
    assert_eq!(header_step(None), HeaderStep::WriteFirst);
    assert_eq!(header_step(Some("#EXTM3U\n")), HeaderStep::Keep);
    assert_eq!(header_step(Some("  #EXTM3U \r\n")), HeaderStep::Keep);
    assert_eq!(header_step(Some("some content without header")), HeaderStep::Insert);
    assert_eq!(header_step(Some("\n")), HeaderStep::Insert);
    assert_eq!(header_step(Some("#EXTM3U x")), HeaderStep::Insert);
}

#[test]
fn texts_written_to_files() {
    assert_eq!(m3u_header(), "#EXTM3U");
    assert_eq!(with_header("old\n"), "#EXTM3U\nold\n");
    assert_eq!(entry_text("line\nhttp://x\r\n\n", false), "line\nhttp://x\n");
    assert_eq!(entry_text("line\nhttp://x", true), "#EXTM3U\nline\nhttp://x\n");
    assert_eq!(updated_file("", "e\nhttp://x"), "#EXTM3U\ne\nhttp://x\n");
    assert_eq!(updated_file("old", "e\nhttp://x"), "#EXTM3U\nolde\nhttp://x\n");
}

#[test]
fn entry_lines_are_parsed() {
    let (g, n) = parse_entry_line(&chars("#EXTINF:-1 tvg-id=\"x\" group-title=\"Kids\",Cartoon, Network")).unwrap();
    assert_eq!(g, "Kids");
    assert_eq!(n, " Network");
    assert!(parse_entry_line(&chars("#EXTINF:-1,No group")).is_none());
    assert!(parse_entry_line(&chars("EXTINF:-1 group-title=\"A\",B")).is_none());
    assert!(parse_entry_line(&chars("#EXTINF:-1 group-title=\"A\"")).is_none());
    assert!(is_url(&chars("http://a")));
    assert!(is_url(&chars("https://a")));
    assert!(!is_url(&chars("ftp://a")));
    assert!(!is_url(&chars(" https://a")));
}

#[test]
fn malformed_entries_are_skipped() {
    let input = "#EXTM3U\n#EXTINF:-1 group-title=\"A\",One\nnot a url\n#EXTINF:-1,no group\nhttp://x\n#EXTINF:-1 group-title=\"B\",Two\n#EXTINF:-1 group-title=\"C\",Three\nhttps://c\n";
    let entries = extract_entries(input);
    assert_eq!(entries.len(), 1);
    assert_eq!(entries[0].group, "C");
    assert_eq!(entries[0].name, "Three");
    assert_eq!(entries[0].raw_entry, "#EXTINF:-1 group-title=\"C\",Three\nhttps://c");
    let mut dir = PlaylistFiles::new();
    let stats = process_m3u_content(input, &mut dir);
    assert_eq!(stats.total_channels, 1);
    assert_eq!(dir.len(), 1);
}

#[test]
fn crlf_lines_are_kept_in_entries() {
    let input = "#EXTINF:-1 group-title=\"A\",One\r\nhttp://x\r\n";
    let entries = extract_entries(input);
    assert_eq!(entries.len(), 1);
    assert_eq!(entries[0].name, "One\r");
    assert_eq!(entries[0].raw_entry, "#EXTINF:-1 group-title=\"A\",One\r\nhttp://x\r");
}

#[test]
fn streaming_matches_batch() {
    let input = "#EXTM3U\n#EXTINF:-1 group-title=\"A\",One\nhttp://a\njunk\n#EXTINF:-1 group-title=\"B\",Two\n#EXTINF:-1 group-title=\"B\",Three\nhttps://b\n";
    let batch = extract_entries(input);
    let mut scanner = EntryScanner::new();
    let mut streamed = Vec::new();
    for line in input.split('\n') {
        if let Some(e) = scanner.feed_line(line) {
            streamed.push(e);
        }
    }
    assert_eq!(batch.len(), 2);
    assert_eq!(streamed.len(), batch.len());
    for (a, b) in batch.iter().zip(streamed.iter()) {
        assert_eq!(a.group, b.group);
        assert_eq!(a.name, b.name);
        assert_eq!(a.raw_entry, b.raw_entry);
    }
}

#[test]
fn new_stats_are_empty_and_count() {
    let mut stats = ProcessingStats::new();
    assert_eq!(stats.total_channels, 0);
    assert_eq!(stats.processed_channels, 0);
    assert!(stats.groups_created.is_empty());
    stats.record("A");
    stats.record("B");
    stats.record("A");
    assert_eq!(stats.processed_channels, 3);
    assert_eq!(stats.groups_created, vec![("A".to_string(), 2), ("B".to_string(), 1)]);
}

#[test]
fn empty_input_writes_nothing() {
    let mut dir = PlaylistFiles::new();
    let stats = process_m3u_content("", &mut dir);
    assert_eq!(stats.total_channels, 0);
    assert_eq!(dir.len(), 0);
    assert!(extract_entries("#EXTM3U\n").is_empty());
}

#[test]
fn words_are_split_and_joined() {
    assert_eq!(split_words("multiple   spaces"), vec!["multiple".to_string(), "spaces".to_string()]);
    assert_eq!(split_words(" a\tb\n c "), vec!["a".to_string(), "b".to_string(), "c".to_string()]);
    assert!(split_words("   ").is_empty());
    assert!(split_words("").is_empty());
    assert_eq!(join_words(&["News".to_string(), "And".to_string(), "Entertainment".to_string()]), "News And Entertainment");
    assert_eq!(join_words(&["One".to_string()]), "One");
    assert_eq!(join_words(&[]), "");
}
