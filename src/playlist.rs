//! The playlist file format: one track path per line.
use crate::text::{chars_of, join_from, joined, string_of};
use vstd::prelude::*;

verus! {

/// The text of a playlist: its tracks joined by newlines.
pub open spec fn playlist_text(q: Seq<Seq<char>>) -> Seq<char> {
    joined(q, '\n')
}

/// The lines of a text, split at each newline.
pub open spec fn lines(t: Seq<char>) -> Seq<Seq<char>>
    decreases t.len(),
{
    if t.len() == 0 {
        seq![Seq::empty()]
    } else {
        let ls = lines(t.drop_last());
        if t.last() == '\n' {
            ls.push(Seq::empty())
        } else {
            ls.update(ls.len() - 1, ls.last().push(t.last()))
        }
    }
}

pub open spec fn is_blank(c: char) -> bool {
    c == ' ' || c == '\t' || c == '\n' || c == '\r' || c == '\x0c'
}

/// A line without the blanks at its two ends.
pub open spec fn trimmed(s: Seq<char>) -> Seq<char>
    decreases s.len(),
{
    if s.len() > 0 && is_blank(s[0]) {
        trimmed(s.drop_first())
    } else if s.len() > 0 && is_blank(s.last()) {
        trimmed(s.drop_last())
    } else {
        s
    }
}

/// The tracks that a playlist text holds: its lines, trimmed, without the
/// empty ones.
pub open spec fn playlist_tracks(t: Seq<char>) -> Seq<Seq<char>> {
    lines(t).map_values(|l: Seq<char>| trimmed(l)).filter(|l: Seq<char>| l.len() > 0)
}

/// A track path that a playlist keeps as it is: not empty, no newline in it,
/// no blank at either end.
pub open spec fn storable(p: Seq<char>) -> bool {
    &&& p.len() > 0
    &&& !is_blank(p[0])
    &&& !is_blank(p.last())
    &&& forall|i: int| 0 <= i < p.len() ==> p[i] != '\n'
}

/// The text of a playlist of the tracks `queue`.
pub fn join_tracks(queue: &Vec<String>) -> (r: String)
    ensures
        r@ == playlist_text(crate::search::views(queue@)),
{
    let r = join_from(queue, 0, '\n');
    assert(crate::search::views(queue@).subrange(0, queue.len() as int) =~= crate::search::views(queue@));
    r
}

proof fn lemma_lines_not_empty(t: Seq<char>)
    ensures
        lines(t).len() >= 1,
    decreases t.len(),
{
    if t.len() > 0 {
        lemma_lines_not_empty(t.drop_last());
    }
}

/// Text without a newline extends the last line.
proof fn lemma_lines_extend(x: Seq<char>, y: Seq<char>)
    requires
        forall|i: int| 0 <= i < y.len() ==> y[i] != '\n',
    ensures
        lines(x + y) == lines(x).update(lines(x).len() - 1, lines(x).last() + y),
    decreases y.len(),
{
    lemma_lines_not_empty(x);
    if y.len() == 0 {
        assert(x + y =~= x);
        assert(lines(x).last() + y =~= lines(x).last());
        assert(lines(x).update(lines(x).len() - 1, lines(x).last()) =~= lines(x));
    } else {
        let y0 = y.drop_last();
        lemma_lines_extend(x, y0);
        assert((x + y).drop_last() =~= x + y0);
        assert((x + y).last() == y.last());
        assert(lines(x).last() + y0 + seq![y.last()] =~= lines(x).last() + y);
        assert(y[y.len() - 1] != '\n');
        let l0 = lines(x + y0);
        assert(lines(x + y) == l0.update(l0.len() - 1, l0.last().push(y.last())));
        assert(l0.last() == lines(x).last() + y0);
        assert((lines(x).last() + y0).push(y.last()) =~= lines(x).last() + y);
        assert(lines(x + y) =~= lines(x).update(lines(x).len() - 1, lines(x).last() + y));
    }
}

proof fn lemma_lines_of_text(q: Seq<Seq<char>>)
    requires
        q.len() > 0,
        forall|i: int| 0 <= i < q.len() ==> storable(#[trigger] q[i]),
    ensures
        lines(playlist_text(q)) == q,
    decreases q.len(),
{
    let p = q.last();
    assert(storable(q[q.len() - 1]));
    if q.len() == 1 {
        lemma_lines_extend(Seq::empty(), p);
        assert(Seq::<char>::empty() + p =~= p);
        assert(Seq::<char>::empty() + p =~= p);
        assert(lines(p) =~= q);
    } else {
        let r = q.drop_last();
        assert forall|i: int| 0 <= i < r.len() implies storable(#[trigger] r[i]) by {
            assert(storable(q[i]));
        }
        lemma_lines_of_text(r);
        let head = playlist_text(r) + seq!['\n'];
        lemma_lines_extend(head, p);
        assert(head.drop_last() =~= playlist_text(r));
        assert(lines(head) == r.push(Seq::empty()));
        assert(Seq::<char>::empty() + p =~= p);
        assert(lines(head + p) =~= q);
    }
}

/// A stored track has no blank to trim.
proof fn lemma_trimmed_range(s: Seq<char>, a: int, b: int)
    requires
        0 <= a <= b <= s.len(),
        forall|i: int| 0 <= i < a ==> is_blank(#[trigger] s[i]),
        forall|i: int| b <= i < s.len() ==> is_blank(#[trigger] s[i]),
        a == b || (!is_blank(s[a]) && !is_blank(s[b - 1])),
    ensures
        trimmed(s) == s.subrange(a, b),
    decreases s.len(),
{
    if s.len() > 0 && is_blank(s[0]) {
        let t = s.drop_first();
        if a == 0 {
            assert(a == b);
            lemma_trimmed_range(t, 0, 0);
        } else {
            lemma_trimmed_range(t, a - 1, b - 1);
            assert(t.subrange(a - 1, b - 1) =~= s.subrange(a, b));
        }
        if a == 0 {
            assert(t.subrange(0, 0) =~= s.subrange(0, 0));
        }
    } else if s.len() > 0 && is_blank(s.last()) {
        assert(b < s.len()) by {
            if b == s.len() {
                if a == b {
                    assert(is_blank(s[0]));
                }
            }
        }
        let t = s.drop_last();
        lemma_trimmed_range(t, a, b);
        assert(t.subrange(a, b) =~= s.subrange(a, b));
    } else {
        if s.len() > 0 {
            assert(a == 0);
            assert(b == s.len());
        }
        assert(s.subrange(a, b) =~= s);
    }
}

/// Saving tracks and reading the text back gives the same tracks, in the
/// same order, where each track is a path that a playlist keeps as it is.
pub proof fn lemma_playlist_round_trip(q: Seq<Seq<char>>)
    requires
        forall|i: int| 0 <= i < q.len() ==> storable(#[trigger] q[i]),
    ensures
        playlist_tracks(playlist_text(q)) == q,
{
    reveal(Seq::filter);
    if q.len() == 0 {
        assert(lines(Seq::<char>::empty()) == seq![Seq::<char>::empty()]);
        lemma_trimmed_range(Seq::<char>::empty(), 0, 0);
        let m = lines(Seq::<char>::empty()).map_values(|l: Seq<char>| trimmed(l));
        assert(m.len() == 1);
        assert(m.last() =~= Seq::<char>::empty());
        assert(m.drop_last().len() == 0);
        assert(m.drop_last().filter(|l: Seq<char>| l.len() > 0).len() == 0);
        assert(m.filter(|l: Seq<char>| l.len() > 0) == m.drop_last().filter(|l: Seq<char>| l.len() > 0));
        assert(m.filter(|l: Seq<char>| l.len() > 0) =~= q);
    } else {
        lemma_lines_of_text(q);
        let m = q.map_values(|l: Seq<char>| trimmed(l));
        assert forall|i: int| 0 <= i < q.len() implies #[trigger] m[i] == q[i] by {
            assert(storable(q[i]));
            lemma_trimmed_range(q[i], 0, q[i].len() as int);
            assert(q[i].subrange(0, q[i].len() as int) =~= q[i]);
        }
        assert(m =~= q);
        lemma_filter_keeps_all(q);
    }
}

proof fn lemma_filter_keeps_all(q: Seq<Seq<char>>)
    requires
        forall|i: int| 0 <= i < q.len() ==> (#[trigger] q[i]).len() > 0,
    ensures
        q.filter(|l: Seq<char>| l.len() > 0) == q,
    decreases q.len(),
{
    reveal(Seq::filter);
    if q.len() > 0 {
        lemma_filter_keeps_all(q.drop_last());
        assert(q.last().len() > 0);
        assert(q.drop_last().push(q.last()) =~= q);
    }
}

/// The characters of `cs`, without the blanks at its two ends.
fn trim_line(cs: &Vec<char>) -> (r: String)
    ensures
        r@ == trimmed(cs@),
{
    let mut a: usize = 0;
    while a < cs.len() && (cs[a] == ' ' || cs[a] == '\t' || cs[a] == '\n' || cs[a] == '\r' || cs[a]
        == '\x0c')
        invariant
            a <= cs.len(),
            forall|i: int| 0 <= i < a ==> is_blank(#[trigger] cs@[i]),
        decreases cs.len() - a,
    {
        a += 1;
    }
    let mut b: usize = if a == cs.len() { a } else { cs.len() };
    while b > a && (cs[b - 1] == ' ' || cs[b - 1] == '\t' || cs[b - 1] == '\n' || cs[b - 1] == '\r'
        || cs[b - 1] == '\x0c')
        invariant
            a <= b <= cs.len(),
            a < cs.len() ==> !is_blank(cs@[a as int]),
            forall|i: int| b <= i < cs.len() ==> is_blank(#[trigger] cs@[i]),
        decreases b,
    {
        b -= 1;
    }
    proof {
        lemma_trimmed_range(cs@, a as int, b as int);
    }
    string_of(cs, a, b)
}

/// The tracks that the text of a playlist file holds, one per line: each
/// line trimmed of blanks, empty lines left out.
pub fn parse_playlist(text: &str) -> (r: Vec<String>)
    ensures
        crate::search::views(r@) == playlist_tracks(text@),
{
    let cs = chars_of(text);
    let mut out: Vec<String> = Vec::new();
    let mut line: Vec<char> = Vec::new();
    let ghost mut done: Seq<Seq<char>> = Seq::empty();
    let mut i: usize = 0;
    while i < cs.len()
        invariant
            i <= cs.len(),
            cs@ == text@,
            lines(cs@.take(i as int)) == done.push(line@),
            crate::search::views(out@) == done.map_values(|l: Seq<char>| trimmed(l)).filter(
                |l: Seq<char>| l.len() > 0,
            ),
        decreases cs.len() - i,
    {
        let c = cs[i];
        let ghost t = cs@.take(i + 1);
        assert(t.drop_last() =~= cs@.take(i as int));
        reveal(Seq::filter);
        if c == '\n' {
            let l = trim_line(&line);
            let ghost before = crate::search::views(out@);
            let ghost m = done.push(line@).map_values(|l: Seq<char>| trimmed(l));
            assert(m.drop_last() =~= done.map_values(|l: Seq<char>| trimmed(l)));
            if !l.as_str().is_empty() {
                assert(l@.len() > 0);
                out.push(l);
                assert(crate::search::views(out@) =~= before.push(m.last()));
            } else {
                assert(l@.len() == 0);
            }
            proof {
                done = done.push(line@);
            }
            line = Vec::new();
            assert(lines(t) =~= done.push(line@));
        } else {
            line.push(c);
            assert(lines(t) =~= done.push(line@));
        }
        i += 1;
    }
    assert(cs@.take(i as int) =~= cs@);
    reveal(Seq::filter);
    let l = trim_line(&line);
    let ghost m = done.push(line@).map_values(|l: Seq<char>| trimmed(l));
    assert(m.drop_last() =~= done.map_values(|l: Seq<char>| trimmed(l)));
    let ghost before = crate::search::views(out@);
    if !l.as_str().is_empty() {
        assert(l@.len() > 0);
        out.push(l);
        assert(crate::search::views(out@) =~= before.push(m.last()));
    } else {
        assert(l@.len() == 0);
    }
    out
}

/// The name of a playlist file: what comes before its first `.`.
pub open spec fn name_of_file(f: Seq<char>) -> Seq<char>
    decreases f.len(),
{
    if f.len() == 0 {
        f
    } else if f[0] == '.' {
        Seq::empty()
    } else {
        seq![f[0]] + name_of_file(f.drop_first())
    }
}

/// The playlist name under which a file of the playlist directory is listed.
pub fn playlist_name(file_name: &str) -> (r: String)
    ensures
        r@ == name_of_file(file_name@),
{
    let cs = chars_of(file_name);
    let mut i: usize = 0;
    assert(cs@.skip(0) =~= cs@);
    assert(cs@.take(0) + name_of_file(cs@) =~= name_of_file(cs@));
    while i < cs.len() && cs[i] != '.'
        invariant
            i <= cs.len(),
            cs@ == file_name@,
            name_of_file(file_name@) == cs@.take(i as int) + name_of_file(cs@.skip(i as int)),
        decreases cs.len() - i,
    {
        assert(cs@.skip(i as int).drop_first() =~= cs@.skip(i + 1));
        assert(cs@.take(i as int) + seq![cs@[i as int]] =~= cs@.take(i + 1));
        i += 1;
    }
    assert(cs@.take(i as int) + name_of_file(cs@.skip(i as int)) =~= cs@.take(i as int)) by {
        if i < cs.len() {
            assert(cs@.skip(i as int)[0] == '.');
        }
    }
    string_of(&cs, 0, i)
}

} // verus!
