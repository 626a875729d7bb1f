use musicman::{parse_input, Command, Input, PlaylistCommand, ShowCommand};

#[test]
fn add_joins_the_query_words() {
    match parse_input("  add   the  Song ") {
        Input::Send(Command::Add(q)) => assert_eq!(q, "the Song"),
        other => panic!("unexpected {:?}", other),
    }
    assert!(matches!(parse_input("add"), Input::MissingQuery));
}

#[test]
fn empty_line_is_nothing() {
    assert!(matches!(parse_input(""), Input::Nothing));
    assert!(matches!(parse_input(" \t "), Input::Nothing));
    assert!(matches!(parse_input("pl"), Input::Nothing));
}

#[test]
fn transport_words() {
    assert!(matches!(parse_input("replay"), Input::Send(Command::Replay)));
    assert!(matches!(parse_input("play"), Input::Send(Command::Toggle)));
    assert!(matches!(parse_input("pause"), Input::Send(Command::Toggle)));
    assert!(matches!(parse_input("p"), Input::Send(Command::Toggle)));
    assert!(matches!(parse_input("clear"), Input::Send(Command::Clear)));
    assert!(matches!(parse_input("exit"), Input::Send(Command::Exit)));
}

#[test]
fn next_and_prev_counts() {
    assert!(matches!(parse_input("next"), Input::Send(Command::Next(1))));
    assert!(matches!(parse_input("prev"), Input::Send(Command::Prev(1))));
    assert!(matches!(parse_input("next 5"), Input::Send(Command::Next(5))));
    assert!(matches!(parse_input("prev +2"), Input::Send(Command::Prev(2))));
    match parse_input("next x") {
        Input::BadCount(v) => assert_eq!(v, "next"),
        other => panic!("unexpected {:?}", other),
    }
    match parse_input("prev -1") {
        Input::BadCount(v) => assert_eq!(v, "prev"),
        other => panic!("unexpected {:?}", other),
    }
    match parse_input("next 99999999999999999999999") {
        Input::BadCount(v) => assert_eq!(v, "next"),
        other => panic!("unexpected {:?}", other),
    }
}

#[test]
fn show_scopes() {
    assert!(matches!(parse_input("show"), Input::Send(Command::Show(ShowCommand::All))));
    assert!(matches!(parse_input("ls cp"), Input::Send(Command::Show(ShowCommand::Current))));
    assert!(matches!(parse_input("ls other"), Input::Send(Command::Show(ShowCommand::All))));
}

#[test]
fn playlist_subcommands() {
    match parse_input("playlist new My Mix") {
        Input::Send(Command::Playlist(PlaylistCommand::New(n))) => assert_eq!(n, "my mix"),
        other => panic!("unexpected {:?}", other),
    }
    match parse_input("pl load Road") {
        Input::Send(Command::Playlist(PlaylistCommand::Load(n))) => assert_eq!(n, "road"),
        other => panic!("unexpected {:?}", other),
    }
    assert!(matches!(
        parse_input("pl ls"),
        Input::Send(Command::Playlist(PlaylistCommand::List))
    ));
    match parse_input("pl drop") {
        Input::BadPlaylistVerb(v) => assert_eq!(v, "drop"),
        other => panic!("unexpected {:?}", other),
    }
}

#[test]
fn bare_words_and_numbers() {
    match parse_input("3") {
        Input::Send(Command::Number(t)) => assert_eq!(t, "3"),
        other => panic!("unexpected {:?}", other),
    }
    match parse_input("frob") {
        Input::Send(Command::Error(t)) => assert_eq!(t, "frob"),
        other => panic!("unexpected {:?}", other),
    }
}
