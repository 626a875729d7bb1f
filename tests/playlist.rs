use musicman::{
    frame_width, join_tracks, parse_count, parse_playlist, playlist_file_name, playlist_name,
};

#[test]
fn playlist_text_round_trip() {
    let q = vec!["/m/a.mp3".to_string(), "/m/b c.mp3".to_string(), "/m/c.mp3".to_string()];
    let text = join_tracks(&q);
    assert_eq!(text, "/m/a.mp3\n/m/b c.mp3\n/m/c.mp3");
    assert_eq!(parse_playlist(&text), q);
}

#[test]
fn playlist_lines_are_trimmed_and_blank_ones_skipped() {
    assert_eq!(
        parse_playlist("  /m/a.mp3 \r\n\n\t/m/b.mp3\n"),
        vec!["/m/a.mp3".to_string(), "/m/b.mp3".to_string()]
    );
    assert!(parse_playlist("").is_empty());
    assert!(parse_playlist(" \n \n").is_empty());
}

#[test]
fn empty_queue_saves_empty_text() {
    assert_eq!(join_tracks(&Vec::new()), "");
}

#[test]
fn playlist_file_names() {
    assert_eq!(playlist_file_name("foo"), "foo.list");
    assert_eq!(playlist_name("foo.list"), "foo");
    assert_eq!(playlist_name("a.b.list"), "a");
    assert_eq!(playlist_name("plain"), "plain");
}

#[test]
fn counts() {
    assert_eq!(parse_count("42"), Some(42));
    assert_eq!(parse_count("+7"), Some(7));
    assert_eq!(parse_count(""), None);
    assert_eq!(parse_count("+"), None);
    assert_eq!(parse_count("4a"), None);
    assert_eq!(parse_count(&usize::MAX.to_string()), Some(usize::MAX));
    assert_eq!(parse_count("184467440737095516160"), None);
}

#[test]
fn frame_is_as_wide_as_the_widest_entry() {
    let items = vec!["ab".to_string(), "日本語".to_string()];
    assert_eq!(frame_width(&items, "Queue"), 6);
    assert_eq!(frame_width(&Vec::new(), "Queue"), 5);
    assert_eq!(frame_width(&Vec::new(), ""), 0);
}
