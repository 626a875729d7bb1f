//! The control loop's state machine: the queue, the playing position, and
//! the flag that drops a stale end-of-track report.
use crate::command::{Command, PlaylistCommand, ShowCommand};
use crate::playlist::{lemma_playlist_round_trip, playlist_text, playlist_tracks, storable};
use crate::search::{search, search_result, views};
use crate::text::{count_of, display_name, last_segment};
use vstd::arithmetic::div_mod::{lemma_fundamental_div_mod, lemma_fundamental_div_mod_converse_mod};
use vstd::prelude::*;

verus! {

/// The state of the control loop, as values.
pub ghost struct QueueModel {
    pub queue: Seq<Seq<char>>,
    pub current: nat,
    pub interrupted: bool,
    /// The candidates of an add that waits for a numbered choice; empty when
    /// no choice is awaited.
    pub pending: Seq<Seq<char>>,
}

/// What the control loop asks of the world after one command.
#[derive(Debug)]
pub enum Outcome {
    /// Nothing to do.
    Idle,
    /// The query found nothing.
    NoMatch(String),
    /// The query found several tracks; the next message picks one by number.
    Choose(Vec<String>),
    /// The track was queued; when the flag is set, start playing it.
    Added(String, bool),
    /// The answer to a choice was no number of a candidate; nothing was added.
    NotAChoice,
    /// Restart this track from its beginning.
    Replay(String),
    /// Pause when playing, resume when paused.
    Toggle,
    /// Stop playback.
    Cleared,
    /// Stop what plays and play this track.
    Skip(String),
    /// The last track ended; play this one.
    Advance(String),
    /// The command needs a track and the queue holds none.
    EmptyQueue,
    /// End the process.
    Exit,
    /// Show the display name of the playing track.
    ShowCurrent(String),
    /// Show the display names of the queue, marking the playing position.
    ShowAll(Vec<String>, usize),
    /// Save the playlist text under the file name.
    Save(String, String),
    /// Show the saved playlists.
    ListPlaylists,
    /// Read the playlist of this file name and hand its tracks back.
    Load(String),
    /// A playlist replaced the queue: show these display names and stop what
    /// plays to play the first track.
    Loaded(Vec<String>, String),
    /// The message is no command.
    Unknown(String),
}

pub open spec fn index_in_range(m: QueueModel) -> bool {
    &&& m.queue.len() > 0 ==> m.current < m.queue.len()
    &&& m.queue.len() == 0 ==> m.current == 0
}

/// `(cur + n) mod len`.
pub open spec fn forward(cur: nat, n: nat, len: nat) -> nat {
    ((cur + n) as int % (len as int)) as nat
}

/// `(cur - n) mod len`, wrapping below zero.
pub open spec fn backward(cur: nat, n: nat, len: nat) -> nat {
    ((cur as int - n as int) % (len as int)) as nat
}

/// `forward` as the control loop computes it, without overflow.
proof fn lemma_forward_steps(cur: int, n: int, l: int)
    requires
        0 <= cur < l,
        0 <= n,
    ensures
        forward(cur as nat, n as nat, l as nat) == (if cur >= l - n % l {
            cur - (l - n % l)
        } else {
            cur + n % l
        }),
{
    let k = n / l;
    let m = n % l;
    lemma_fundamental_div_mod(n, l);
    if cur >= l - m {
        assert(cur + n == (k + 1) * l + (cur + m - l)) by (nonlinear_arith)
            requires
                n == l * k + m,
        ;
        lemma_fundamental_div_mod_converse_mod(cur + n, l, k + 1, cur + m - l);
    } else {
        assert(cur + n == k * l + (cur + m)) by (nonlinear_arith)
            requires
                n == l * k + m,
        ;
        lemma_fundamental_div_mod_converse_mod(cur + n, l, k, cur + m);
    }
}

/// `backward` as the control loop computes it, without overflow.
proof fn lemma_backward_steps(cur: int, n: int, l: int)
    requires
        0 <= cur < l,
        0 <= n,
    ensures
        backward(cur as nat, n as nat, l as nat) == (if cur >= n % l {
            cur - n % l
        } else {
            l - (n % l - cur)
        }),
{
    let k = n / l;
    let m = n % l;
    lemma_fundamental_div_mod(n, l);
    if cur >= m {
        assert(cur - n == (-k) * l + (cur - m)) by (nonlinear_arith)
            requires
                n == l * k + m,
        ;
        lemma_fundamental_div_mod_converse_mod(cur - n, l, -k, cur - m);
    } else {
        assert(cur - n == (-k - 1) * l + (l - (m - cur))) by (nonlinear_arith)
            requires
                n == l * k + m,
        ;
        lemma_fundamental_div_mod_converse_mod(cur - n, l, -k - 1, l - (m - cur));
    }
}

/// The file name of a saved playlist.
pub open spec fn playlist_file(name: Seq<char>) -> Seq<char> {
    name + seq!['.', 'l', 'i', 's', 't']
}

/// The candidate that the answer `t` picks, counting from one.
pub open spec fn choice(pending: Seq<Seq<char>>, t: Seq<char>) -> Option<Seq<char>> {
    match count_of(t) {
        Some(n) => if 1 <= n <= pending.len() {
            Some(pending[n - 1])
        } else {
            None
        },
        None => None,
    }
}

/// The display names of the tracks of `q`.
pub open spec fn shown_names(q: Seq<Seq<char>>) -> Seq<Seq<char>> {
    q.map_values(|p: Seq<char>| last_segment(p))
}

/// The state after `track` is queued.
pub open spec fn appended(m: QueueModel, track: Seq<char>) -> QueueModel {
    QueueModel {
        queue: m.queue.push(track),
        current: if m.queue.len() == 0 { 0 } else { m.current },
        interrupted: m.interrupted,
        pending: Seq::empty(),
    }
}

/// The state after a move of the playing position to `i`.
pub open spec fn moved(m: QueueModel, i: nat) -> QueueModel {
    QueueModel { current: i, interrupted: true, ..m }
}

/// The state after the tracks of a playlist replace the queue; a playlist
/// without tracks changes nothing.
pub open spec fn loaded(m: QueueModel, tracks: Seq<Seq<char>>) -> QueueModel {
    if tracks.len() == 0 {
        m
    } else {
        QueueModel { queue: tracks, current: 0, interrupted: true, pending: Seq::empty() }
    }
}

/// The state after one command, with `lib` the library searched by an add.
pub open spec fn after(m: QueueModel, cmd: Command, lib: Seq<Seq<char>>) -> QueueModel {
    let len = m.queue.len();
    if m.pending.len() > 0 {
        match cmd {
            Command::Number(t) => match choice(m.pending, t@) {
                Some(track) => appended(m, track),
                None => QueueModel { pending: Seq::empty(), ..m },
            },
            _ => QueueModel { pending: Seq::empty(), ..m },
        }
    } else {
        match cmd {
            Command::Add(q) => {
                let found = search_result(lib, q@);
                if found.len() == 1 {
                    appended(m, found[0])
                } else if found.len() > 1 {
                    QueueModel { pending: found, ..m }
                } else {
                    m
                }
            },
            // A restart supersedes the playing track, so its end report is stale.
            Command::Replay => if len > 0 {
                QueueModel { interrupted: true, ..m }
            } else {
                m
            },
            Command::Clear => QueueModel { queue: Seq::empty(), current: 0, ..m },
            Command::Next(n) => if len > 0 {
                moved(m, forward(m.current, n as nat, len))
            } else {
                m
            },
            Command::Prev(n) => if len > 0 {
                moved(m, backward(m.current, n as nat, len))
            } else {
                m
            },
            Command::TrackEnd => if m.interrupted {
                QueueModel { interrupted: false, ..m }
            } else if len > 0 {
                QueueModel { current: forward(m.current, 1, len), ..m }
            } else {
                m
            },
            _ => m,
        }
    }
}

/// What the control loop asks for after one command from the state `m`.
pub open spec fn reply(m: QueueModel, cmd: Command, lib: Seq<Seq<char>>, o: Outcome) -> bool {
    let len = m.queue.len();
    let next = after(m, cmd, lib);
    if m.pending.len() > 0 {
        match cmd {
            Command::Number(t) => match choice(m.pending, t@) {
                Some(track) => o matches Outcome::Added(s, play) && s@ == track && play == (len == 0),
                None => o is NotAChoice,
            },
            _ => o is NotAChoice,
        }
    } else {
        match cmd {
            Command::Add(q) => {
                let found = search_result(lib, q@);
                if found.len() == 1 {
                    o matches Outcome::Added(s, play) && s@ == found[0] && play == (len == 0)
                } else if found.len() > 1 {
                    o matches Outcome::Choose(v) && views(v@) == found
                } else {
                    o matches Outcome::NoMatch(s) && s@ == q@
                }
            },
            Command::Replay => if len > 0 {
                o matches Outcome::Replay(s) && s@ == m.queue[m.current as int]
            } else {
                o is EmptyQueue
            },
            Command::Toggle => o is Toggle,
            Command::Clear => o is Cleared,
            Command::Next(_) | Command::Prev(_) => if len > 0 {
                o matches Outcome::Skip(s) && s@ == next.queue[next.current as int]
            } else {
                o is EmptyQueue
            },
            Command::Exit => o is Exit,
            Command::Show(ShowCommand::Current) => if len > 0 {
                o matches Outcome::ShowCurrent(s) && s@ == last_segment(m.queue[m.current as int])
            } else {
                o is EmptyQueue
            },
            Command::Show(ShowCommand::All) => if len > 0 {
                o matches Outcome::ShowAll(v, i) && views(v@) == shown_names(m.queue) && i == m.current
            } else {
                o is EmptyQueue
            },
            Command::Playlist(PlaylistCommand::New(name)) => o matches Outcome::Save(f, t) && f@
                == playlist_file(name@) && t@ == playlist_text(m.queue),
            Command::Playlist(PlaylistCommand::List) => o is ListPlaylists,
            Command::Playlist(PlaylistCommand::Load(name)) => o matches Outcome::Load(f) && f@
                == playlist_file(name@),
            Command::TrackEnd => if !m.interrupted && len > 0 {
                o matches Outcome::Advance(s) && s@ == next.queue[next.current as int]
            } else {
                o is Idle
            },
            Command::Number(t) | Command::Error(t) => o matches Outcome::Unknown(s) && s@ == t@,
        }
    }
}

/// The control loop's own state.
pub struct ControlState {
    queue: Vec<String>,
    current: usize,
    interrupted: bool,
    pending: Vec<String>,
}

impl View for ControlState {
    type V = QueueModel;

    closed spec fn view(&self) -> QueueModel {
        QueueModel {
            queue: views(self.queue@),
            current: self.current as nat,
            interrupted: self.interrupted,
            pending: views(self.pending@),
        }
    }
}

/// The display names of the tracks of `q`.
fn display_names(q: &Vec<String>) -> (r: Vec<String>)
    ensures
        views(r@) == shown_names(views(q@)),
{
    let mut r: Vec<String> = Vec::new();
    let mut i: usize = 0;
    while i < q.len()
        invariant
            i <= q.len(),
            views(r@) == shown_names(views(q@.take(i as int))),
        decreases q.len() - i,
    {
        let ghost before = views(r@);
        r.push(display_name(q[i].as_str()));
        assert(views(r@) =~= before.push(last_segment(q@[i as int]@)));
        assert(shown_names(views(q@.take(i + 1))) =~= shown_names(views(q@.take(i as int))).push(
            last_segment(q@[i as int]@),
        ));
        i += 1;
    }
    assert(q@.take(i as int) =~= q@);
    r
}

/// A copy of the track paths `v`.
fn copy_tracks(v: &Vec<String>) -> (r: Vec<String>)
    ensures
        views(r@) == views(v@),
{
    let mut r: Vec<String> = Vec::new();
    let mut i: usize = 0;
    while i < v.len()
        invariant
            i <= v.len(),
            views(r@) == views(v@.take(i as int)),
        decreases v.len() - i,
    {
        let ghost before = views(r@);
        r.push(v[i].clone());
        assert(views(r@) =~= before.push(v@[i as int]@));
        assert(views(v@.take(i + 1)) =~= views(v@.take(i as int)).push(v@[i as int]@));
        i += 1;
    }
    assert(v@.take(i as int) =~= v@);
    r
}

/// The file name under which the playlist `name` is saved.
pub fn playlist_file_name(name: &str) -> (r: String)
    ensures
        r@ == playlist_file(name@),
{
    let cs = crate::text::chars_of(name);
    let mut r = crate::text::string_of(&cs, 0, cs.len());
    assert(cs@.subrange(0, cs.len() as int) =~= name@);
    crate::text::push_char(&mut r, '.');
    crate::text::push_char(&mut r, 'l');
    crate::text::push_char(&mut r, 'i');
    crate::text::push_char(&mut r, 's');
    crate::text::push_char(&mut r, 't');
    assert(r@ =~= playlist_file(name@));
    r
}

impl ControlState {
    pub open spec fn wf(&self) -> bool {
        index_in_range(self@)
    }

    /// An empty queue at position zero, with no choice awaited.
    pub fn new() -> (r: Self)
        ensures
            r.wf(),
            r@.queue.len() == 0,
            r@.current == 0,
            !r@.interrupted,
            r@.pending.len() == 0,
    {
        let r = ControlState {
            queue: Vec::new(),
            current: 0,
            interrupted: false,
            pending: Vec::new(),
        };
        assert(r@.queue =~= Seq::<Seq<char>>::empty());
        r
    }

    /// The queued track paths.
    pub fn queue(&self) -> (r: &Vec<String>)
        ensures
            views(r@) == self@.queue,
    {
        &self.queue
    }

    /// The position of the playing track in the queue.
    pub fn current_index(&self) -> (r: usize)
        ensures
            r == self@.current,
    {
        self.current
    }

    /// Whether the next end-of-track report is stale.
    pub fn interrupted(&self) -> (r: bool)
        ensures
            r == self@.interrupted,
    {
        self.interrupted
    }

    /// Whether an add waits for a numbered choice.
    pub fn awaiting_choice(&self) -> (r: bool)
        ensures
            r == (self@.pending.len() > 0),
    {
        self.pending.len() > 0
    }

    fn push_track(&mut self, track: String) -> (r: Outcome)
        requires
            old(self).wf(),
        ensures
            final(self)@ == appended(old(self)@, track@),
            final(self).wf(),
            r matches Outcome::Added(s, play) && s@ == track@ && play == (old(self)@.queue.len() == 0),
    {
        let play = self.queue.len() == 0;
        if play {
            self.current = 0;
        }
        self.queue.push(track.clone());
        self.pending = Vec::new();
        assert(self@.queue =~= appended(old(self)@, track@).queue);
        assert(self@.pending =~= Seq::<Seq<char>>::empty());
        Outcome::Added(track, play)
    }

    /// Replaces the queue with the tracks of a playlist, from its first track.
    pub fn load_tracks(&mut self, tracks: Vec<String>) -> (r: Outcome)
        requires
            old(self).wf(),
        ensures
            final(self).wf(),
            final(self)@ == loaded(old(self)@, views(tracks@)),
            tracks@.len() == 0 ==> r is Idle,
            tracks@.len() > 0 ==> (r matches Outcome::Loaded(names, first) && views(names@)
                == shown_names(views(tracks@)) && first@ == tracks@[0]@),
    {
        if tracks.len() == 0 {
            return Outcome::Idle;
        }
        let names = display_names(&tracks);
        let first = tracks[0].clone();
        self.queue = tracks;
        self.current = 0;
        self.interrupted = true;
        self.pending = Vec::new();
        assert(self@.pending =~= Seq::<Seq<char>>::empty());
        Outcome::Loaded(names, first)
    }

    /// Takes one message and says what to do about it.
    pub fn step(&mut self, cmd: Command, library: &Vec<String>) -> (r: Outcome)
        requires
            old(self).wf(),
        ensures
            final(self).wf(),
            final(self)@ == after(old(self)@, cmd, views(library@)),
            reply(old(self)@, cmd, views(library@), r),
    {
        let len: usize = self.queue.len();
        if self.pending.len() > 0 {
            let picked: Option<usize> = match &cmd {
                Command::Number(t) => match crate::text::parse_count(t.as_str()) {
                    Some(n) => if 1 <= n && n <= self.pending.len() {
                        Some(n - 1)
                    } else {
                        None
                    },
                    None => None,
                },
                _ => None,
            };
            match picked {
                Some(i) => {
                    let track = self.pending[i].clone();
                    return self.push_track(track);
                },
                None => {
                    self.pending = Vec::new();
                    assert(self@.pending =~= Seq::<Seq<char>>::empty());
                    return Outcome::NotAChoice;
                },
            }
        }
        match cmd {
            Command::Add(q) => {
                let found = search(library, &q);
                assert(views(found@).len() == found.len());
                if found.len() == 1 {
                    assert(views(found@)[0] == found[0]@);
                    let track = found[0].clone();
                    let r = self.push_track(track);
                    assert(self@ == after(old(self)@, cmd, views(library@)));
                    r
                } else if found.len() > 1 {
                    self.pending = copy_tracks(&found);
                    assert(self@ == after(old(self)@, cmd, views(library@)));
                    Outcome::Choose(found)
                } else {
                    assert(self@ == after(old(self)@, cmd, views(library@)));
                    Outcome::NoMatch(q)
                }
            },
            Command::Replay => {
                if len > 0 {
                    self.interrupted = true;
                    Outcome::Replay(self.queue[self.current].clone())
                } else {
                    Outcome::EmptyQueue
                }
            },
            Command::Toggle => Outcome::Toggle,
            Command::Clear => {
                self.queue = Vec::new();
                self.current = 0;
                assert(self@.queue =~= Seq::<Seq<char>>::empty());
                Outcome::Cleared
            },
            Command::Next(n) => {
                if len > 0 {
                    let m: usize = n % len;
                    proof {
                        lemma_forward_steps(self.current as int, n as int, len as int);
                    }
                    self.current = if self.current >= len - m {
                        self.current - (len - m)
                    } else {
                        self.current + m
                    };
                    self.interrupted = true;
                    assert(self@.current == after(old(self)@, cmd, views(library@)).current);
                    Outcome::Skip(self.queue[self.current].clone())
                } else {
                    Outcome::EmptyQueue
                }
            },
            Command::Prev(n) => {
                if len > 0 {
                    let m: usize = n % len;
                    proof {
                        lemma_backward_steps(self.current as int, n as int, len as int);
                    }
                    self.current = if self.current >= m {
                        self.current - m
                    } else {
                        len - (m - self.current)
                    };
                    self.interrupted = true;
                    assert(self@.current == after(old(self)@, cmd, views(library@)).current);
                    Outcome::Skip(self.queue[self.current].clone())
                } else {
                    Outcome::EmptyQueue
                }
            },
            Command::Exit => Outcome::Exit,
            Command::Show(ShowCommand::Current) => {
                if len > 0 {
                    Outcome::ShowCurrent(display_name(self.queue[self.current].as_str()))
                } else {
                    Outcome::EmptyQueue
                }
            },
            Command::Show(ShowCommand::All) => {
                if len > 0 {
                    Outcome::ShowAll(display_names(&self.queue), self.current)
                } else {
                    Outcome::EmptyQueue
                }
            },
            Command::Playlist(PlaylistCommand::New(name)) => {
                Outcome::Save(
                    playlist_file_name(name.as_str()),
                    crate::playlist::join_tracks(&self.queue),
                )
            },
            Command::Playlist(PlaylistCommand::List) => Outcome::ListPlaylists,
            Command::Playlist(PlaylistCommand::Load(name)) => {
                Outcome::Load(playlist_file_name(name.as_str()))
            },
            Command::TrackEnd => {
                if self.interrupted {
                    self.interrupted = false;
                    Outcome::Idle
                } else if len > 0 {
                    proof {
                        lemma_forward_steps(self.current as int, 1, len as int);
                        if len == 1 {
                            assert(1int % 1int == 0);
                        } else {
                            assert(1int % (len as int) == 1) by {
                                vstd::arithmetic::div_mod::lemma_small_mod(1, len as nat);
                            }
                        }
                    }
                    self.current = if self.current + 1 == len {
                        0
                    } else {
                        self.current + 1
                    };
                    Outcome::Advance(self.queue[self.current].clone())
                } else {
                    Outcome::Idle
                }
            },
            Command::Number(t) => Outcome::Unknown(t),
            Command::Error(t) => Outcome::Unknown(t),
        }
    }
}

/// Whatever the command, a position that lies inside a non-empty queue
/// stays inside it (and stays zero on an empty one).
pub proof fn lemma_index_stays_in_range(m: QueueModel, cmd: Command, lib: Seq<Seq<char>>)
    requires
        index_in_range(m),
    ensures
        index_in_range(after(m, cmd, lib)),
{
    let len = m.queue.len();
    if m.pending.len() == 0 && len > 0 {
        match cmd {
            Command::Next(n) => lemma_forward_steps(m.current as int, n as int, len as int),
            Command::Prev(n) => lemma_backward_steps(m.current as int, n as int, len as int),
            Command::TrackEnd => lemma_forward_steps(m.current as int, 1, len as int),
            _ => {},
        }
    }
}

/// Moving forward by `n` and then back by `n` returns to the position
/// where the queue was.
pub proof fn lemma_next_then_prev(m: QueueModel, n: usize, lib: Seq<Seq<char>>)
    requires
        index_in_range(m),
        m.queue.len() > 0,
        m.pending.len() == 0,
    ensures
        after(after(m, Command::Next(n), lib), Command::Prev(n), lib).current == m.current,
{
    let l = m.queue.len() as int;
    let c = m.current as int;
    let x = (c + n) % l;
    lemma_forward_steps(c, n as int, l);
    lemma_fundamental_div_mod(c + n, l);
    let k = (c + n) / l;
    assert(x - n == (-k) * l + c) by (nonlinear_arith)
        requires
            c + n == l * k + x,
    ;
    lemma_fundamental_div_mod_converse_mod(x - n, l, -k, c);
}

/// An end-of-track report that comes while the flag is set only clears the
/// flag; one that comes while it is clear moves one track on, wrapping at
/// the end of the queue.
pub proof fn lemma_track_end(m: QueueModel, lib: Seq<Seq<char>>)
    requires
        index_in_range(m),
        m.pending.len() == 0,
    ensures
        m.interrupted ==> {
            let a = after(m, Command::TrackEnd, lib);
            &&& !a.interrupted
            &&& a.current == m.current
            &&& a.queue == m.queue
        },
        !m.interrupted && m.queue.len() > 0 ==> {
            let a = after(m, Command::TrackEnd, lib);
            &&& a.current == (m.current + 1) as int % (m.queue.len() as int)
            &&& a.queue == m.queue
        },
{
}

/// Saving the queue as a playlist and loading that playlist gives back the
/// same tracks in the same order, from the first track; this holds where
/// each track is a path that a playlist keeps as it is.
pub proof fn lemma_save_then_load(m: QueueModel, q: Seq<Seq<char>>)
    requires
        q.len() > 0,
        forall|i: int| 0 <= i < q.len() ==> storable(#[trigger] q[i]),
    ensures
        playlist_tracks(playlist_text(q)) == q,
        loaded(m, playlist_tracks(playlist_text(q))).queue == q,
        loaded(m, playlist_tracks(playlist_text(q))).current == 0,
{
    lemma_playlist_round_trip(q);
}

} // verus!
