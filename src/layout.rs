//! The width of the box in which a list is shown.
use crate::search::views;
use vstd::prelude::*;

verus! {

/// The displayed width of a string in terminal columns.
pub uninterp spec fn width_of(s: Seq<char>) -> usize;

/// Relies on `unicode_width::UnicodeWidthStr::width`: the displayed width of
/// a string, which depends on its characters alone; the empty string is
/// zero columns wide.
#[verifier::external_body]
fn text_width(s: &str) -> (r: usize)
    ensures
        r == width_of(s@),
        s@.len() == 0 ==> r == 0,
{
    unicode_width::UnicodeWidthStr::width(s)
}

/// The widest of the title and the items.
pub open spec fn widest(items: Seq<Seq<char>>, title: Seq<char>) -> usize
    decreases items.len(),
{
    if items.len() == 0 {
        width_of(title)
    } else {
        let w = widest(items.drop_last(), title);
        let x = width_of(items.last());
        if x > w {
            x
        } else {
            w
        }
    }
}

/// The number of columns that the widest of the title and the items takes.
pub fn frame_width(items: &Vec<String>, title: &str) -> (r: usize)
    ensures
        r == widest(views(items@), title@),
{
    let mut w: usize = text_width(title);
    let mut i: usize = 0;
    while i < items.len()
        invariant
            i <= items.len(),
            w == widest(views(items@.take(i as int)), title@),
        decreases items.len() - i,
    {
        let x: usize = text_width(items[i].as_str());
        let ghost t = views(items@.take(i + 1));
        assert(t.drop_last() =~= views(items@.take(i as int)));
        if x > w {
            w = x;
        }
        i += 1;
    }
    assert(items@.take(i as int) =~= items@);
    w
}

} // verus!
