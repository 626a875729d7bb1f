//! Reading one typed line as a command.
use crate::command::{Command, PlaylistCommand, ShowCommand};
use crate::playlist::is_blank;
use crate::search::{lower_of, lowercase, views};
use crate::text::{chars_of, count_of, join_from, joined, parse_count, string_of};
use vstd::prelude::*;

verus! {

/// What a typed line asks for.
#[derive(Debug)]
pub enum Input {
    /// Hand this command to the control loop.
    Send(Command),
    /// Nothing to do: an empty line, or `playlist` alone.
    Nothing,
    /// `add` without a query.
    MissingQuery,
    /// `next` or `prev` (the word given) with a count that is no number.
    BadCount(String),
    /// `playlist` with a word that is none of its commands.
    BadPlaylistVerb(String),
}

/// The pieces of a text between its blanks, empty ones included.
pub open spec fn pieces(t: Seq<char>) -> Seq<Seq<char>>
    decreases t.len(),
{
    if t.len() == 0 {
        seq![Seq::empty()]
    } else {
        let ps = pieces(t.drop_last());
        if is_blank(t.last()) {
            ps.push(Seq::empty())
        } else {
            ps.update(ps.len() - 1, ps.last().push(t.last()))
        }
    }
}

/// The words of a text: what stands between its blanks.
pub open spec fn words(t: Seq<char>) -> Seq<Seq<char>> {
    pieces(t).filter(|w: Seq<char>| w.len() > 0)
}

/// The words of `w` from position `from` on, joined by spaces.
pub open spec fn rest_of(w: Seq<Seq<char>>, from: int) -> Seq<char> {
    joined(w.subrange(from, w.len() as int), ' ')
}

/// What the typed line `line` asks for.
pub open spec fn reads_as(line: Seq<char>, r: Input) -> bool {
    let w = words(line);
    if w.len() == 0 {
        r is Nothing
    } else if w[0] == "add"@ {
        if w.len() > 1 {
            r matches Input::Send(Command::Add(q)) && q@ == rest_of(w, 1)
        } else {
            r is MissingQuery
        }
    } else if w[0] == "replay"@ {
        r matches Input::Send(Command::Replay)
    } else if w[0] == "play"@ || w[0] == "pause"@ || w[0] == "p"@ {
        r matches Input::Send(Command::Toggle)
    } else if w[0] == "clear"@ {
        r matches Input::Send(Command::Clear)
    } else if w[0] == "next"@ || w[0] == "prev"@ {
        let n = if w.len() > 1 {
            count_of(w[1])
        } else {
            Some(1usize)
        };
        match n {
            Some(n) => if w[0] == "next"@ {
                r matches Input::Send(Command::Next(k)) && k == n
            } else {
                r matches Input::Send(Command::Prev(k)) && k == n
            },
            None => r matches Input::BadCount(v) && v@ == w[0],
        }
    } else if w[0] == "exit"@ {
        r matches Input::Send(Command::Exit)
    } else if w[0] == "show"@ || w[0] == "ls"@ {
        if w.len() > 1 && w[1] == "cp"@ {
            r matches Input::Send(Command::Show(ShowCommand::Current))
        } else {
            r matches Input::Send(Command::Show(ShowCommand::All))
        }
    } else if w[0] == "playlist"@ || w[0] == "pl"@ {
        if w.len() <= 1 {
            r is Nothing
        } else if w[1] == "load"@ {
            r matches Input::Send(Command::Playlist(PlaylistCommand::Load(s))) && s@ == lower_of(
                rest_of(w, 2),
            )
        } else if w[1] == "new"@ {
            r matches Input::Send(Command::Playlist(PlaylistCommand::New(s))) && s@ == lower_of(
                rest_of(w, 2),
            )
        } else if w[1] == "ls"@ || w[1] == "show"@ {
            r matches Input::Send(Command::Playlist(PlaylistCommand::List))
        } else {
            r matches Input::BadPlaylistVerb(v) && v@ == w[1]
        }
    } else if count_of(w[0]) is Some {
        r matches Input::Send(Command::Number(s)) && s@ == w[0]
    } else {
        r matches Input::Send(Command::Error(s)) && s@ == w[0]
    }
}

/// The words of `line`, in order.
fn words_of(line: &str) -> (r: Vec<String>)
    ensures
        views(r@) == words(line@),
{
    let cs = chars_of(line);
    let mut out: Vec<String> = Vec::new();
    let mut word: Vec<char> = Vec::new();
    let ghost mut done: Seq<Seq<char>> = Seq::empty();
    let mut i: usize = 0;
    while i < cs.len()
        invariant
            i <= cs.len(),
            cs@ == line@,
            pieces(cs@.take(i as int)) == done.push(word@),
            views(out@) == done.filter(|w: Seq<char>| w.len() > 0),
        decreases cs.len() - i,
    {
        let c = cs[i];
        let ghost t = cs@.take(i + 1);
        assert(t.drop_last() =~= cs@.take(i as int));
        reveal(Seq::filter);
        if c == ' ' || c == '\t' || c == '\n' || c == '\r' || c == '\x0c' {
            let ghost before = views(out@);
            assert(done.push(word@).drop_last() =~= done);
            if word.len() > 0 {
                let w = string_of(&word, 0, word.len());
                assert(word@.subrange(0, word.len() as int) =~= word@);
                out.push(w);
                assert(views(out@) =~= before.push(word@));
            }
            proof {
                done = done.push(word@);
            }
            word = Vec::new();
            assert(pieces(t) =~= done.push(word@));
        } else {
            word.push(c);
            assert(pieces(t) =~= done.push(word@));
        }
        i += 1;
    }
    assert(cs@.take(i as int) =~= cs@);
    reveal(Seq::filter);
    let ghost before = views(out@);
    assert(done.push(word@).drop_last() =~= done);
    if word.len() > 0 {
        let w = string_of(&word, 0, word.len());
        assert(word@.subrange(0, word.len() as int) =~= word@);
        out.push(w);
        assert(views(out@) =~= before.push(word@));
    }
    out
}

/// Whether `a` holds the text `b`.
fn is_text(a: &String, b: &str) -> (r: bool)
    ensures
        r == (a@ == b@),
{
    let x = chars_of(a.as_str());
    let y = chars_of(b);
    if x.len() != y.len() {
        return false;
    }
    let mut i: usize = 0;
    while i < x.len()
        invariant
            i <= x.len() == y.len(),
            x@ == a@,
            y@ == b@,
            forall|j: int| 0 <= j < i ==> x@[j] == y@[j],
        decreases x.len() - i,
    {
        if x[i] != y[i] {
            assert(a@[i as int] != b@[i as int]);
            return false;
        }
        i += 1;
    }
    assert(x@ =~= y@);
    true
}

/// Reads one typed line: a command for the control loop, or a complaint.
pub fn parse_input(line: &str) -> (r: Input)
    ensures
        reads_as(line@, r),
{
    let w = words_of(line);
    let ghost ws = views(w@);
    if w.len() == 0 {
        return Input::Nothing;
    }
    assert(ws[0] == w[0]@);
    let verb = &w[0];
    if is_text(verb, "add") {
        if w.len() > 1 {
            Input::Send(Command::Add(join_from(&w, 1, ' ')))
        } else {
            Input::MissingQuery
        }
    } else if is_text(verb, "replay") {
        Input::Send(Command::Replay)
    } else if is_text(verb, "play") || is_text(verb, "pause") || is_text(verb, "p") {
        Input::Send(Command::Toggle)
    } else if is_text(verb, "clear") {
        Input::Send(Command::Clear)
    } else if is_text(verb, "next") || is_text(verb, "prev") {
        let n: Option<usize> = if w.len() > 1 {
            assert(ws[1] == w[1]@);
            parse_count(w[1].as_str())
        } else {
            Some(1)
        };
        match n {
            Some(n) => if is_text(verb, "next") {
                Input::Send(Command::Next(n))
            } else {
                Input::Send(Command::Prev(n))
            },
            None => Input::BadCount(verb.clone()),
        }
    } else if is_text(verb, "exit") {
        Input::Send(Command::Exit)
    } else if is_text(verb, "show") || is_text(verb, "ls") {
        if w.len() > 1 && is_text(&w[1], "cp") {
            Input::Send(Command::Show(ShowCommand::Current))
        } else {
            Input::Send(Command::Show(ShowCommand::All))
        }
    } else if is_text(verb, "playlist") || is_text(verb, "pl") {
        if w.len() <= 1 {
            Input::Nothing
        } else {
            assert(ws[1] == w[1]@);
            let sub = &w[1];
            if is_text(sub, "load") || is_text(sub, "new") {
                let name = lowercase(join_from(&w, 2, ' ').as_str());
                if is_text(sub, "load") {
                    Input::Send(Command::Playlist(PlaylistCommand::Load(name)))
                } else {
                    Input::Send(Command::Playlist(PlaylistCommand::New(name)))
                }
            } else if is_text(sub, "ls") || is_text(sub, "show") {
                Input::Send(Command::Playlist(PlaylistCommand::List))
            } else {
                Input::BadPlaylistVerb(sub.clone())
            }
        }
    } else if parse_count(verb.as_str()).is_some() {
        Input::Send(Command::Number(verb.clone()))
    } else {
        Input::Send(Command::Error(verb.clone()))
    }
}

} // verus!
