//! Progressive prefix narrowing of a library of track paths.
use crate::text::{chars_of, display_name, last_segment};
use vstd::prelude::*;

verus! {

/// What `str::to_lowercase` makes of a string.
pub uninterp spec fn lower_of(s: Seq<char>) -> Seq<char>;

/// Relies on `str::to_lowercase`: the result depends on the characters alone,
/// and the empty string stays empty.
#[verifier::external_body]
pub(crate) fn lowercase(s: &str) -> (r: String)
    ensures
        r@ == lower_of(s@),
        s@.len() == 0 ==> r@.len() == 0,
{
    s.to_lowercase()
}

/// The strings of `v`, as character sequences.
pub open spec fn views(v: Seq<String>) -> Seq<Seq<char>> {
    v.map_values(|s: String| s@)
}

/// The search key of a path: its display name, lowercased.
pub open spec fn key_of(p: Seq<char>) -> Seq<char> {
    lower_of(last_segment(p))
}

/// The first `k` characters of `s`, or all of `s` when it is shorter.
pub open spec fn clip(s: Seq<char>, k: nat) -> Seq<char> {
    if k <= s.len() {
        s.take(k as int)
    } else {
        s
    }
}

/// The key of `p` agrees with the query `q` on their first `k` characters.
pub open spec fn agrees(p: Seq<char>, q: Seq<char>, k: nat) -> bool {
    clip(key_of(p), k) == clip(q, k)
}

/// The entries of `c` whose key agrees with `q` on the first `k` characters,
/// in their order in `c`.
pub open spec fn narrow(c: Seq<Seq<char>>, q: Seq<char>, k: nat) -> Seq<Seq<char>> {
    c.filter(|p: Seq<char>| agrees(p, q, k))
}

/// The rounds of narrowing from prefix length `k` on, starting from the
/// candidates `c` that survived the round before.
pub open spec fn narrow_from(c: Seq<Seq<char>>, q: Seq<char>, k: nat) -> Seq<Seq<char>>
    decreases q.len() - k,
{
    let next = narrow(c, q, k);
    if next.len() == 0 {
        if k <= 1 {
            Seq::empty()
        } else {
            c
        }
    } else if next.len() == 1 || k >= q.len() {
        next
    } else {
        narrow_from(next, q, k + 1)
    }
}

/// The entries that a search of `lib` for `target` resolves to.
pub open spec fn search_result(lib: Seq<Seq<char>>, target: Seq<char>) -> Seq<Seq<char>> {
    if lib.contains(target) {
        seq![target]
    } else {
        narrow_from(lib, lower_of(target), 1)
    }
}

/// Whether `key` and `q` agree on their first `k` characters.
fn agrees_at(key: &Vec<char>, q: &Vec<char>, k: usize) -> (r: bool)
    ensures
        r == (clip(key@, k as nat) == clip(q@, k as nat)),
{
    let a: usize = if k <= key.len() { k } else { key.len() };
    let b: usize = if k <= q.len() { k } else { q.len() };
    if a != b {
        assert(clip(key@, k as nat).len() != clip(q@, k as nat).len());
        return false;
    }
    let mut i: usize = 0;
    while i < a
        invariant
            i <= a == b,
            a <= key.len(),
            b <= q.len(),
            clip(key@, k as nat) == key@.take(a as int),
            clip(q@, k as nat) == q@.take(b as int),
            forall|j: int| 0 <= j < i ==> key@[j] == q@[j],
        decreases a - i,
    {
        if key[i] != q[i] {
            assert(clip(key@, k as nat)[i as int] != clip(q@, k as nat)[i as int]);
            return false;
        }
        i += 1;
    }
    assert(clip(key@, k as nat) =~= clip(q@, k as nat));
    true
}

/// One round: the candidates whose key agrees with `q` on `k` characters.
fn narrow_round(names: &Vec<String>, keys: &Vec<Vec<char>>, q: &Vec<char>, k: usize) -> (r: (
    Vec<String>,
    Vec<Vec<char>>,
))
    requires
        keys.len() == names.len(),
        forall|i: int| 0 <= i < names.len() ==> (#[trigger] keys[i])@ == key_of(names[i]@),
    ensures
        views(r.0@) == narrow(views(names@), q@, k as nat),
        r.1.len() == r.0.len(),
        forall|i: int| 0 <= i < r.0.len() ==> (#[trigger] r.1[i])@ == key_of(r.0[i]@),
{
    let mut out: Vec<String> = Vec::new();
    let mut out_keys: Vec<Vec<char>> = Vec::new();
    let mut i: usize = 0;
    while i < names.len()
        invariant
            i <= names.len(),
            keys.len() == names.len(),
            forall|j: int| 0 <= j < names.len() ==> (#[trigger] keys[j])@ == key_of(names[j]@),
            views(out@) == narrow(views(names@.take(i as int)), q@, k as nat),
            out_keys.len() == out.len(),
            forall|j: int| 0 <= j < out.len() ==> (#[trigger] out_keys[j])@ == key_of(out[j]@),
        decreases names.len() - i,
    {
        let ghost before = views(names@.take(i as int));
        let ghost after = views(names@.take(i + 1));
        assert(after.len() == i + 1);
        assert(after.drop_last() =~= before);
        assert(after.last() == names[i as int]@);
        reveal(Seq::filter);
        assert(narrow(after, q@, k as nat) == (if agrees(after.last(), q@, k as nat) {
            narrow(before, q@, k as nat).push(after.last())
        } else {
            narrow(before, q@, k as nat)
        }));
        assert(keys[i as int]@ == key_of(names[i as int]@));
        let keep = agrees_at(&keys[i], q, k);
        assert(keep == agrees(after.last(), q@, k as nat));
        if keep {
            let name = names[i].clone();
            out.push(name);
            out_keys.push(keys[i].clone());
            assert(views(out@) =~= narrow(before, q@, k as nat).push(names[i as int]@));
        }
        assert(views(out@) == narrow(after, q@, k as nat));
        i += 1;
    }
    assert(names@.take(names.len() as int) =~= names@);
    (out, out_keys)
}

/// The keys of all the entries of `names`.
fn keys_of(names: &Vec<String>) -> (r: Vec<Vec<char>>)
    ensures
        r.len() == names.len(),
        forall|i: int| 0 <= i < names.len() ==> (#[trigger] r[i])@ == key_of(names[i]@),
{
    let mut r: Vec<Vec<char>> = Vec::new();
    let mut i: usize = 0;
    while i < names.len()
        invariant
            i <= names.len(),
            r.len() == i,
            forall|j: int| 0 <= j < i ==> (#[trigger] r[j])@ == key_of(names[j]@),
        decreases names.len() - i,
    {
        let shown = display_name(names[i].as_str());
        let lowered = lowercase(shown.as_str());
        r.push(chars_of(lowered.as_str()));
        i += 1;
    }
    r
}

/// Resolves a free-text query against the library.
///
/// A query equal to a full path of the library gives that path alone.
/// Otherwise the candidates are narrowed round by round on the first `k`
/// characters of their lowercased display name against the lowercased query,
/// `k` growing from one: a round that keeps nobody ends the search with the
/// candidates of the round before (with nothing, in the first round); a round
/// that keeps one candidate, or that reaches the length of the query, ends it
/// with what it kept. Entries keep their order in the library.
pub fn search(names_in: &Vec<String>, target: &String) -> (r: Vec<String>)
    ensures
        views(r@) == search_result(views(names_in@), target@),
{
    let ghost lib = views(names_in@);
    let mut i: usize = 0;
    while i < names_in.len()
        invariant
            i <= names_in.len(),
            lib == views(names_in@),
            forall|j: int| 0 <= j < i ==> lib[j] != target@,
        decreases names_in.len() - i,
    {
        if names_in[i] == *target {
            assert(lib[i as int] == target@);
            let found = vec![target.clone()];
            assert(views(found@) =~= seq![target@]);
            return found;
        }
        i += 1;
    }
    assert(!lib.contains(target@));
    let lowered = lowercase(target.as_str());
    let q = chars_of(lowered.as_str());
    let keys = keys_of(names_in);
    let (mut cand, mut cand_keys) = narrow_round(names_in, &keys, &q, 1);
    if cand.len() == 0 {
        assert(views(cand@).len() == 0);
        let none: Vec<String> = Vec::new();
        assert(views(none@) =~= Seq::<Seq<char>>::empty());
        return none;
    }
    if cand.len() == 1 || 1 >= q.len() {
        return cand;
    }
    let mut k: usize = 2;
    loop
        invariant
            2 <= k <= q.len(),
            cand.len() >= 2,
            cand_keys.len() == cand.len(),
            forall|j: int| 0 <= j < cand.len() ==> (#[trigger] cand_keys[j])@ == key_of(cand[j]@),
            narrow_from(views(cand@), q@, k as nat) == narrow_from(lib, q@, 1),
            q@ == lower_of(target@),
            lib == views(names_in@),
            !lib.contains(target@),
        decreases q.len() - k,
    {
        let (next, next_keys) = narrow_round(&cand, &cand_keys, &q, k);
        let ghost now = views(cand@);
        assert(views(next@).len() == next.len());
        assert(narrow_from(now, q@, k as nat) == {
            let n = narrow(now, q@, k as nat);
            if n.len() == 0 {
                now
            } else if n.len() == 1 || k >= q.len() {
                n
            } else {
                narrow_from(n, q@, k as nat + 1)
            }
        });
        if next.len() == 0 {
            return cand;
        }
        if next.len() == 1 || k >= q.len() {
            return next;
        }
        cand = next;
        cand_keys = next_keys;
        k += 1;
    }
}

proof fn lemma_clip_clip(s: Seq<char>, i: nat, j: nat)
    requires
        i <= j,
    ensures
        clip(clip(s, j), i) == clip(s, i),
{
    assert(clip(clip(s, j), i) =~= clip(s, i));
}

/// Agreement on `j` characters implies agreement on fewer.
proof fn lemma_agrees_shorter(p: Seq<char>, q: Seq<char>, i: nat, j: nat)
    requires
        i <= j,
        agrees(p, q, j),
    ensures
        agrees(p, q, i),
{
    lemma_clip_clip(key_of(p), i, j);
    lemma_clip_clip(q, i, j);
}

/// Narrowing on `j` characters and then on `i >= j` is narrowing on `i`.
proof fn lemma_narrow_twice(c: Seq<Seq<char>>, q: Seq<char>, j: nat, i: nat)
    requires
        j <= i,
    ensures
        narrow(narrow(c, q, j), q, i) == narrow(c, q, i),
    decreases c.len(),
{
    reveal(Seq::filter);
    if c.len() > 0 {
        let rest = c.drop_last();
        let x = c.last();
        lemma_narrow_twice(rest, q, j, i);
        if agrees(x, q, j) {
            let m = narrow(c, q, j);
            assert(m == narrow(rest, q, j).push(x));
            assert(m.drop_last() =~= narrow(rest, q, j));
            assert(m.last() == x);
            assert(narrow(m, q, i) == (if agrees(x, q, i) {
                narrow(m.drop_last(), q, i).push(x)
            } else {
                narrow(m.drop_last(), q, i)
            }));
        } else {
            if agrees(x, q, i) {
                lemma_agrees_shorter(x, q, j, i);
            }
        }
    }
}

proof fn lemma_narrow_none(c: Seq<Seq<char>>, q: Seq<char>, k: nat)
    requires
        forall|i: int| 0 <= i < c.len() ==> !agrees(#[trigger] c[i], q, k),
    ensures
        narrow(c, q, k).len() == 0,
    decreases c.len(),
{
    reveal(Seq::filter);
    if c.len() > 0 {
        assert(!agrees(c[c.len() - 1], q, k));
        lemma_narrow_none(c.drop_last(), q, k);
    }
}

proof fn lemma_narrow_from_full(lib: Seq<Seq<char>>, q: Seq<char>, k: nat)
    requires
        1 <= k <= q.len(),
        narrow(lib, q, q.len()).len() >= 1,
    ensures
        narrow_from(if k == 1 { lib } else { narrow(lib, q, (k - 1) as nat) }, q, k)
            == narrow(lib, q, q.len()),
    decreases q.len() - k,
{
    let c = if k == 1 { lib } else { narrow(lib, q, (k - 1) as nat) };
    let next = narrow(c, q, k);
    let full = narrow(lib, q, q.len());
    if k > 1 {
        lemma_narrow_twice(lib, q, (k - 1) as nat, k);
    }
    assert(next == narrow(lib, q, k));
    lemma_narrow_twice(lib, q, k, q.len());
    assert(full == narrow(next, q, q.len()));
    next.lemma_filter_len(|p: Seq<char>| agrees(p, q, q.len()));
    assert(next.len() >= 1);
    if next.len() == 1 {
        reveal(Seq::filter);
        assert(next.drop_last().len() == 0);
        assert(narrow(next.drop_last(), q, q.len()).len() == 0);
        assert(full == (if agrees(next.last(), q, q.len()) {
            narrow(next.drop_last(), q, q.len()).push(next.last())
        } else {
            narrow(next.drop_last(), q, q.len())
        }));
        assert(full =~= next);
    } else if k < q.len() {
        lemma_narrow_from_full(lib, q, k + 1);
    }
}

/// Where some entries agree with the lowercased query along its whole
/// (non-empty) length, and the query is no full path of the library, the
/// search gives exactly those entries, in their order in the library: one
/// entry when one agrees, all of them when several do.
pub proof fn lemma_search_full_length(lib: Seq<Seq<char>>, target: Seq<char>)
    requires
        !lib.contains(target),
        lower_of(target).len() >= 1,
        narrow(lib, lower_of(target), lower_of(target).len()).len() >= 1,
    ensures
        search_result(lib, target) == narrow(lib, lower_of(target), lower_of(target).len()),
{
    lemma_narrow_from_full(lib, lower_of(target), 1);
}

/// A search of an empty library, or with a query whose first character
/// starts no entry's key (and that is no full path of the library), finds
/// nothing.
pub proof fn lemma_search_no_match(lib: Seq<Seq<char>>, target: Seq<char>)
    requires
        lib.len() == 0 || (!lib.contains(target) && forall|i: int|
            0 <= i < lib.len() ==> !agrees(#[trigger] lib[i], lower_of(target), 1)),
    ensures
        search_result(lib, target).len() == 0,
{
    if lib.len() == 0 {
        assert(!lib.contains(target));
    }
    lemma_narrow_none(lib, lower_of(target), 1);
}

} // verus!
