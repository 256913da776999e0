//! Titles of new threads, derived from their opening message.
use vstd::prelude::*;

use crate::text::{chars_of, is_whitespace, is_ws, join, slice_vec, string_of};

verus! {

broadcast use vstd::string::group_string_axioms;

/// Longest thread title, in characters.
pub const MAX_TITLE_LEN: usize = 128;
/// Number of leading words a title keeps.
pub const TITLE_WORDS: usize = 8;
/// Title of a thread whose opening message gives none.
pub const DEFAULT_THREAD_TITLE: &'static str = "New thread";

/// The maximal runs of non-whitespace characters (`str::split_whitespace`).
pub open spec fn words(s: Seq<char>) -> Seq<Seq<char>>
    decreases s.len(),
{
    if s.len() == 0 {
        Seq::empty()
    } else {
        let w = words(s.drop_last());
        let c = s.last();
        if is_ws(c) {
            w
        } else if s.len() >= 2 && !is_ws(s[s.len() - 2]) {
            w.update(w.len() - 1, w.last().push(c))
        } else {
            w.push(seq![c])
        }
    }
}

proof fn lemma_words_nonempty(s: Seq<char>)
    requires
        s.len() > 0,
        !is_ws(s.last()),
    ensures
        words(s).len() > 0,
    decreases s.len(),
{
    if s.len() >= 2 && !is_ws(s[s.len() - 2]) {
        assert(s.drop_last().last() == s[s.len() - 2]);
        lemma_words_nonempty(s.drop_last());
    }
}

/// The words of a text, in order.
pub fn split_whitespace(v: &[char]) -> (r: Vec<Vec<char>>)
    ensures
        crate::text::views(r@) == words(v@),
{
    let mut out: Vec<Vec<char>> = Vec::new();
    let mut i: usize = 0;
    assert(v@.take(0) =~= Seq::<char>::empty());
    while i < v.len()
        invariant
            i <= v.len(),
            crate::text::views(out@) == words(v@.take(i as int)),
        decreases v.len() - i,
    {
        let c = v[i];
        let ghost pre = v@.take(i as int);
        let ghost next = v@.take(i + 1);
        assert(next.drop_last() == pre);
        assert(next.last() == c);
        let ghost before = crate::text::views(out@);
        if is_whitespace(c) {
        } else if i >= 1 && !is_whitespace(v[i - 1]) {
            proof {
                assert(next[next.len() - 2] == v@[i - 1]);
                assert(pre.last() == v@[i - 1]);
                lemma_words_nonempty(pre);
            }
            let last = out.len() - 1;
            let mut w = crate::text::copy_chars(out[last].as_slice());
            w.push(c);
            out.set(last, w);
            assert(crate::text::views(out@) =~= before.update(last as int, before.last().push(c)));
        } else {
            let mut nw: Vec<char> = Vec::new();
            nw.push(c);
            assert(nw@ =~= seq![c]);
            out.push(nw);
            assert(crate::text::views(out@) =~= before.push(seq![c]));
        }
        i += 1;
    }
    assert(v@.take(v.len() as int) == v@);
    out
}

pub open spec fn spec_derive_title(message: Seq<char>) -> Seq<char> {
    let ws = words(message);
    let kept = if ws.len() <= TITLE_WORDS {
        ws
    } else {
        ws.take(TITLE_WORDS as int)
    };
    let joined = join(kept, " "@);
    let title = if joined.len() <= MAX_TITLE_LEN {
        joined
    } else {
        joined.take(MAX_TITLE_LEN as int)
    };
    if title.len() == 0 {
        DEFAULT_THREAD_TITLE@
    } else {
        title
    }
}

/// A short thread title from its opening message: the first eight words,
/// joined by single spaces and cut to 128 characters, or the default title
/// when the message has no words.
pub fn derive_title(message: &str) -> (r: String)
    ensures
        r@ == spec_derive_title(message@),
{
    let ws = split_whitespace(chars_of(message).as_slice());
    let n = if ws.len() <= TITLE_WORDS {
        ws.len()
    } else {
        TITLE_WORDS
    };
    let space = [' '];
    proof {
        reveal_strlit(" ");
        assert(space@ =~= " "@);
    }
    let joined = crate::text::join_range(&ws, 0, n, space.as_slice());
    proof {
        let wv = crate::text::views(ws@);
        if wv.len() <= TITLE_WORDS {
            assert(wv.subrange(0, n as int) == wv);
        } else {
            assert(wv.subrange(0, n as int) == wv.take(TITLE_WORDS as int));
        }
    }
    let title = if joined.len() <= MAX_TITLE_LEN {
        joined
    } else {
        slice_vec(joined.as_slice(), 0, MAX_TITLE_LEN)
    };
    if title.len() == 0 {
        DEFAULT_THREAD_TITLE.to_owned()
    } else {
        string_of(title.as_slice())
    }
}

/// A derived title is never empty and never longer than the limit.
pub proof fn lemma_title_bounds(message: Seq<char>)
    ensures
        0 < spec_derive_title(message).len() <= MAX_TITLE_LEN,
{
    reveal_strlit("New thread");
}

} // verus!
