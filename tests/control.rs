use musicman::{Command, ControlState, Outcome, PlaylistCommand, ShowCommand};

fn library() -> Vec<String> {
    vec![
        "/m/Alpha.mp3".to_string(),
        "/m/Alphorn.mp3".to_string(),
        "/m/Beta.mp3".to_string(),
        "/m/Gamma.mp3".to_string(),
    ]
}

fn with_three() -> ControlState {
    let lib = library();
    let mut s = ControlState::new();
    for q in ["/m/Alpha.mp3", "beta", "gamma"] {
        match s.step(Command::Add(q.to_string()), &lib) {
            Outcome::Added(_, _) => {}
            other => panic!("unexpected {:?}", other),
        }
    }
    s
}

#[test]
fn prev_wraps_below_zero() {
    let lib = library();
    let mut s = with_three();
    assert_eq!(s.current_index(), 0);
    match s.step(Command::Prev(1), &lib) {
        Outcome::Skip(t) => assert_eq!(t, "/m/Gamma.mp3"),
        other => panic!("unexpected {:?}", other),
    }
    assert_eq!(s.current_index(), 2);
}

#[test]
fn next_then_prev_restores_index() {
    let lib = library();
    for n in [0usize, 1, 2, 3, 4, 7, usize::MAX] {
        let mut s = with_three();
        s.step(Command::Next(1), &lib);
        let before = s.current_index();
        s.step(Command::Next(n), &lib);
        s.step(Command::Prev(n), &lib);
        assert_eq!(s.current_index(), before);
    }
}

#[test]
fn next_wraps_around() {
    let lib = library();
    let mut s = with_three();
    s.step(Command::Next(4), &lib);
    assert_eq!(s.current_index(), 1);
    assert!(s.interrupted());
}

#[test]
fn first_add_starts_playback() {
    let lib = library();
    let mut s = ControlState::new();
    match s.step(Command::Add("beta".to_string()), &lib) {
        Outcome::Added(t, play) => {
            assert_eq!(t, "/m/Beta.mp3");
            assert!(play);
        }
        other => panic!("unexpected {:?}", other),
    }
    match s.step(Command::Add("gamma".to_string()), &lib) {
        Outcome::Added(_, play) => assert!(!play),
        other => panic!("unexpected {:?}", other),
    }
    assert_eq!(s.queue().len(), 2);
}

#[test]
fn add_without_match_reports_it() {
    let lib = library();
    let mut s = ControlState::new();
    match s.step(Command::Add("zzz".to_string()), &lib) {
        Outcome::NoMatch(q) => assert_eq!(q, "zzz"),
        other => panic!("unexpected {:?}", other),
    }
    assert!(s.queue().is_empty());
}

#[test]
fn ambiguous_add_waits_for_a_number() {
    let lib = library();
    let mut s = ControlState::new();
    match s.step(Command::Add("alp".to_string()), &lib) {
        Outcome::Choose(c) => assert_eq!(c.len(), 2),
        other => panic!("unexpected {:?}", other),
    }
    assert!(s.awaiting_choice());
    match s.step(Command::Number("2".to_string()), &lib) {
        Outcome::Added(t, play) => {
            assert_eq!(t, "/m/Alphorn.mp3");
            assert!(play);
        }
        other => panic!("unexpected {:?}", other),
    }
    assert!(!s.awaiting_choice());
    assert_eq!(s.queue(), &vec!["/m/Alphorn.mp3".to_string()]);
}

#[test]
fn choice_out_of_range_aborts_add() {
    let lib = library();
    let mut s = ControlState::new();
    s.step(Command::Add("alp".to_string()), &lib);
    assert!(matches!(s.step(Command::Number("3".to_string()), &lib), Outcome::NotAChoice));
    assert!(!s.awaiting_choice());
    assert!(s.queue().is_empty());
    s.step(Command::Add("alp".to_string()), &lib);
    assert!(matches!(s.step(Command::Number("0".to_string()), &lib), Outcome::NotAChoice));
}

#[test]
fn track_end_during_choice_is_dropped() {
    let lib = library();
    let mut s = with_three();
    s.step(Command::Add("alp".to_string()), &lib);
    assert!(matches!(s.step(Command::TrackEnd, &lib), Outcome::NotAChoice));
    assert_eq!(s.current_index(), 0);
    assert_eq!(s.queue().len(), 3);
}

#[test]
fn track_end_after_skip_only_clears_flag() {
    let lib = library();
    let mut s = with_three();
    s.step(Command::Next(1), &lib);
    assert!(s.interrupted());
    assert!(matches!(s.step(Command::TrackEnd, &lib), Outcome::Idle));
    assert!(!s.interrupted());
    assert_eq!(s.current_index(), 1);
}

#[test]
fn natural_track_end_advances_and_wraps() {
    let lib = library();
    let mut s = with_three();
    match s.step(Command::TrackEnd, &lib) {
        Outcome::Advance(t) => assert_eq!(t, "/m/Beta.mp3"),
        other => panic!("unexpected {:?}", other),
    }
    s.step(Command::TrackEnd, &lib);
    s.step(Command::TrackEnd, &lib);
    assert_eq!(s.current_index(), 0);
}

#[test]
fn empty_queue_commands() {
    let lib = library();
    let mut s = ControlState::new();
    assert!(matches!(s.step(Command::Next(1), &lib), Outcome::EmptyQueue));
    assert!(matches!(s.step(Command::Prev(1), &lib), Outcome::EmptyQueue));
    assert!(matches!(s.step(Command::Replay, &lib), Outcome::EmptyQueue));
    assert!(matches!(s.step(Command::Show(ShowCommand::All), &lib), Outcome::EmptyQueue));
    assert!(matches!(s.step(Command::TrackEnd, &lib), Outcome::Idle));
}

#[test]
fn clear_empties_and_resets() {
    let lib = library();
    let mut s = with_three();
    s.step(Command::Next(2), &lib);
    assert!(matches!(s.step(Command::Clear, &lib), Outcome::Cleared));
    assert!(s.queue().is_empty());
    assert_eq!(s.current_index(), 0);
    match s.step(Command::Add("beta".to_string()), &lib) {
        Outcome::Added(_, play) => assert!(play),
        other => panic!("unexpected {:?}", other),
    }
}

#[test]
fn replay_keeps_position() {
    let lib = library();
    let mut s = with_three();
    s.step(Command::Next(1), &lib);
    s.step(Command::TrackEnd, &lib);
    match s.step(Command::Replay, &lib) {
        Outcome::Replay(t) => assert_eq!(t, "/m/Beta.mp3"),
        other => panic!("unexpected {:?}", other),
    }
    assert_eq!(s.current_index(), 1);
}

#[test]
fn show_current_and_all() {
    let lib = library();
    let mut s = with_three();
    s.step(Command::Next(2), &lib);
    match s.step(Command::Show(ShowCommand::Current), &lib) {
        Outcome::ShowCurrent(n) => assert_eq!(n, "Gamma.mp3"),
        other => panic!("unexpected {:?}", other),
    }
    match s.step(Command::Show(ShowCommand::All), &lib) {
        Outcome::ShowAll(names, i) => {
            assert_eq!(names, vec!["Alpha.mp3", "Beta.mp3", "Gamma.mp3"]);
            assert_eq!(i, 2);
        }
        other => panic!("unexpected {:?}", other),
    }
}

#[test]
fn stray_number_and_error_are_unknown() {
    let lib = library();
    let mut s = ControlState::new();
    match s.step(Command::Number("4".to_string()), &lib) {
        Outcome::Unknown(t) => assert_eq!(t, "4"),
        other => panic!("unexpected {:?}", other),
    }
    match s.step(Command::Error("frob".to_string()), &lib) {
        Outcome::Unknown(t) => assert_eq!(t, "frob"),
        other => panic!("unexpected {:?}", other),
    }
}

#[test]
fn save_then_load_round_trip() {
    let lib = library();
    let mut s = with_three();
    s.step(Command::Next(2), &lib);
    let (file, text) = match s.step(Command::Playlist(PlaylistCommand::New("foo".to_string())), &lib) {
        Outcome::Save(f, t) => (f, t),
        other => panic!("unexpected {:?}", other),
    };
    assert_eq!(file, "foo.list");
    assert_eq!(text, "/m/Alpha.mp3\n/m/Beta.mp3\n/m/Gamma.mp3");
    match s.step(Command::Playlist(PlaylistCommand::Load("foo".to_string())), &lib) {
        Outcome::Load(f) => assert_eq!(f, "foo.list"),
        other => panic!("unexpected {:?}", other),
    }
    let mut fresh = ControlState::new();
    match fresh.load_tracks(musicman::parse_playlist(&text)) {
        Outcome::Loaded(names, first) => {
            assert_eq!(names, vec!["Alpha.mp3", "Beta.mp3", "Gamma.mp3"]);
            assert_eq!(first, "/m/Alpha.mp3");
        }
        other => panic!("unexpected {:?}", other),
    }
    assert_eq!(fresh.queue(), s.queue());
    assert_eq!(fresh.current_index(), 0);
    assert!(fresh.interrupted());
}

#[test]
fn loading_an_empty_playlist_changes_nothing() {
    let mut s = with_three();
    assert!(matches!(s.load_tracks(Vec::new()), Outcome::Idle));
    assert_eq!(s.queue().len(), 3);
}

#[test]
fn other_commands_pass_through() {
    let lib = library();
    let mut s = ControlState::new();
    assert!(matches!(s.step(Command::Toggle, &lib), Outcome::Toggle));
    assert!(matches!(s.step(Command::Exit, &lib), Outcome::Exit));
    assert!(matches!(s.step(Command::Playlist(PlaylistCommand::List), &lib), Outcome::ListPlaylists));
}
