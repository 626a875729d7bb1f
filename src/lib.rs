//! A terminal music queue: library search, queue control and playlists.
pub mod command;
pub mod control;
pub mod layout;
pub mod listener;
pub mod playlist;
pub mod search;
pub mod text;

pub use command::{Command, PlayerCommand, PlaylistCommand, ShowCommand};
pub use control::{playlist_file_name, ControlState, Outcome};
pub use layout::frame_width;
pub use listener::{parse_input, Input};
pub use playlist::{join_tracks, parse_playlist, playlist_name};
pub use search::search;
pub use text::{display_name, parse_count};
