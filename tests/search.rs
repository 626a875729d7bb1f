use musicman::{display_name, search};

fn lib(paths: &[&str]) -> Vec<String> {
    paths.iter().map(|s| s.to_string()).collect()
}

#[test]
fn ambiguous_prefix_returns_all_in_library_order() {
    let l = lib(&["/m/Alpha.mp3", "/m/Alphorn.mp3", "/m/Beta.mp3"]);
    assert_eq!(
        search(&l, &"alp".to_string()),
        vec!["/m/Alpha.mp3".to_string(), "/m/Alphorn.mp3".to_string()]
    );
}

#[test]
fn unique_prefix_returns_singleton() {
    let l = lib(&["/m/Alpha.mp3", "/m/Alphorn.mp3", "/m/Beta.mp3"]);
    assert_eq!(search(&l, &"beta".to_string()), vec!["/m/Beta.mp3".to_string()]);
}

#[test]
fn no_first_character_match_is_empty() {
    let l = lib(&["/m/Alpha.mp3", "/m/Alphorn.mp3", "/m/Beta.mp3"]);
    assert!(search(&l, &"zzz".to_string()).is_empty());
}

#[test]
fn empty_library_is_empty() {
    let l: Vec<String> = Vec::new();
    assert!(search(&l, &"beta".to_string()).is_empty());
}

#[test]
fn exact_path_is_returned_alone() {
    let l = lib(&["/m/Alpha.mp3", "/m/Alpha.mp3.bak"]);
    assert_eq!(search(&l, &"/m/Alpha.mp3".to_string()), vec!["/m/Alpha.mp3".to_string()]);
}

#[test]
fn exact_display_name_of_unique_entry() {
    let l = lib(&["/m/Alpha.mp3", "/m/Alphorn.mp3", "/x/Beta.flac"]);
    assert_eq!(search(&l, &"alphorn.mp3".to_string()), vec!["/m/Alphorn.mp3".to_string()]);
}

#[test]
fn query_is_matched_without_case() {
    let l = lib(&["/m/Alpha.mp3", "/m/Beta.mp3"]);
    assert_eq!(search(&l, &"BE".to_string()), vec!["/m/Beta.mp3".to_string()]);
}

#[test]
fn dead_end_keeps_previous_round() {
    // "alx": both survive "al", nobody survives "alx".
    let l = lib(&["/m/Alpha.mp3", "/m/Alphorn.mp3", "/m/Beta.mp3"]);
    assert_eq!(
        search(&l, &"alx".to_string()),
        vec!["/m/Alpha.mp3".to_string(), "/m/Alphorn.mp3".to_string()]
    );
}

#[test]
fn collapse_to_one_ends_early() {
    let l = lib(&["/m/Alpha.mp3", "/m/Beta.mp3"]);
    assert_eq!(search(&l, &"bzzz".to_string()), vec!["/m/Beta.mp3".to_string()]);
}

#[test]
fn names_are_compared_by_characters() {
    let l = lib(&["/m/Été.mp3", "/m/Eau.mp3"]);
    assert_eq!(search(&l, &"ét".to_string()), vec!["/m/Été.mp3".to_string()]);
}

#[test]
fn display_name_is_last_segment() {
    assert_eq!(display_name("/home/u/Music/a/Song.mp3"), "Song.mp3");
    assert_eq!(display_name("Song.mp3"), "Song.mp3");
    assert_eq!(display_name("/m/"), "");
}
