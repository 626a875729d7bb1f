//! The messages that drive the control loop and the playback worker.
use vstd::prelude::*;

verus! {

/// What part of the queue to show.
#[derive(Clone, Copy, Debug, PartialEq, Eq, Structural)]
pub enum ShowCommand {
    Current,
    All,
}

/// What to do with saved playlists.
#[derive(Debug)]
pub enum PlaylistCommand {
    New(String),
    List,
    Load(String),
}

/// One user intent, or the playback worker's report that a track ended.
#[derive(Debug)]
pub enum Command {
    Add(String),
    Replay,
    Toggle,
    Clear,
    Next(usize),
    Prev(usize),
    Exit,
    Show(ShowCommand),
    Playlist(PlaylistCommand),
    TrackEnd,
    Number(String),
    Error(String),
}

/// The one order that the control loop gives the playback worker.
#[derive(Debug)]
pub enum PlayerCommand {
    Play(String),
}

} // verus!
