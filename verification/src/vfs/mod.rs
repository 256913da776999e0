//! Virtual file system entries and path helpers.
use vstd::prelude::*;

use crate::text::{
    chars_of, extend, has_prefix, skip_class, slice_vec, split, split_on, starts_with, string_of,
    trim_start_by, views, Strip,
};

pub mod mounted;

verus! {

broadcast use vstd::string::group_string_axioms;

/// A directory listing entry.
#[derive(Clone, Debug)]
pub struct DirEntry {
    pub name: String,
    pub kind: EntryKind,
    pub size: Option<i64>,
    pub updated_at: i64,
    pub mime_type: Option<String>,
}

impl crate::sorting::Named for DirEntry {
    open spec fn key(&self) -> Seq<char> {
        self.name@
    }

    fn name_chars(&self) -> (r: Vec<char>) {
        chars_of(self.name.as_str())
    }
}

#[derive(Clone, Copy, Debug, PartialEq, Eq, Structural)]
pub enum EntryKind {
    Directory,
    File,
}

/// The contents of an upload taken out of the staging area.
#[derive(Clone, Debug)]
pub struct StagedFile {
    pub name: String,
    pub mime_type: Option<String>,
    pub bytes: Vec<u8>,
}

/// The non-empty parts of `parts`, in order.
pub open spec fn non_empty(parts: Seq<Seq<char>>) -> Seq<Seq<char>>
    decreases parts.len(),
{
    if parts.len() == 0 {
        Seq::empty()
    } else if parts.last().len() > 0 {
        non_empty(parts.drop_last()).push(parts.last())
    } else {
        non_empty(parts.drop_last())
    }
}

/// The segments of a slash-separated path, empty ones dropped.
pub open spec fn path_segments(path: Seq<char>) -> Seq<Seq<char>> {
    non_empty(split(path, '/'))
}

/// The segments of a slash-separated path, empty ones dropped.
pub fn split_path(path: &str) -> (r: Vec<String>)
    ensures
        r@.map_values(|s: String| s@) == path_segments(path@),
{
    let cs = chars_of(path);
    let parts = split_on(cs.as_slice(), '/');
    let ghost all = views(parts@);
    let mut out: Vec<String> = Vec::new();
    let mut i: usize = 0;
    while i < parts.len()
        invariant
            i <= parts.len(),
            all == views(parts@),
            all == split(path@, '/'),
            out@.map_values(|s: String| s@) == non_empty(all.take(i as int)),
        decreases parts.len() - i,
    {
        let ghost before = out@.map_values(|s: String| s@);
        assert(all.take(i + 1).drop_last() == all.take(i as int));
        assert(all.take(i + 1).last() == parts@[i as int]@);
        if parts[i].len() > 0 {
            out.push(string_of(parts[i].as_slice()));
            assert(out@.map_values(|s: String| s@) =~= before.push(parts@[i as int]@));
        }
        i += 1;
    }
    assert(all.take(parts.len() as int) == all);
    out
}

/// `rel` placed under `prefix`: the prefix itself when `rel` is empty.
pub open spec fn spec_join_under(prefix: Seq<char>, rel: Seq<char>) -> Seq<char> {
    if rel.len() == 0 {
        prefix
    } else {
        prefix + seq!['/'] + rel
    }
}

/// Joins a path relative to a writable root under a project's global prefix.
pub fn join_under(prefix: &str, rel: &str) -> (r: String)
    ensures
        r@ == spec_join_under(prefix@, rel@),
{
    let mut v = chars_of(prefix);
    let rv = chars_of(rel);
    if rv.len() > 0 {
        v.push('/');
        extend(&mut v, rv.as_slice());
    }
    string_of(v.as_slice())
}

pub open spec fn spec_join_path(base: Seq<char>, name: Seq<char>) -> Seq<char> {
    if base.len() > 0 && base.last() == '/' {
        base + name
    } else {
        base + seq!['/'] + name
    }
}

/// `name` inside the directory `base`, with exactly one slash between them
/// unless `base` already ends with one.
pub fn join_path(base: &str, name: &str) -> (r: String)
    ensures
        r@ == spec_join_path(base@, name@),
{
    let mut v = chars_of(base);
    if !(v.len() > 0 && v[v.len() - 1] == '/') {
        v.push('/');
    }
    let nv = chars_of(name);
    extend(&mut v, nv.as_slice());
    string_of(v.as_slice())
}

/// The segments of `path` that name something (no empty, `.` or `..`).
pub fn segments(path: &str) -> (r: Vec<String>)
    ensures
        r@.map_values(|s: String| s@) == mounted::clean(path@),
{
    let cs = chars_of(path);
    let segs = mounted::clean_segments(cs.as_slice());
    let mut out: Vec<String> = Vec::new();
    let mut i: usize = 0;
    while i < segs.len()
        invariant
            i <= segs.len(),
            views(segs@) == mounted::clean(path@),
            out@.map_values(|s: String| s@) == views(segs@).take(i as int),
        decreases segs.len() - i,
    {
        let ghost before = out@.map_values(|s: String| s@);
        let t = string_of(segs[i].as_slice());
        assert(t@ == views(segs@)[i as int]);
        out.push(t);
        assert(out@.map_values(|s: String| s@) =~= before.push(t@));
        assert(views(segs@).take(i + 1) =~= views(segs@).take(i as int).push(t@));
        i += 1;
    }
    assert(views(segs@).take(segs.len() as int) == views(segs@));
    out
}

/// A tool's path taken as workspace-relative: leading slashes, then a
/// leading `~workspace`, then the slashes after it, dropped.
pub open spec fn spec_strip_workspace_prefix(path: Seq<char>) -> Seq<char> {
    let p = trim_start_by(path, Strip::Exactly('/'));
    let q = if has_prefix(p, "~workspace"@) {
        p.skip(10)
    } else {
        p
    };
    trim_start_by(q, Strip::Exactly('/'))
}

/// `path` relative to the workspace (it always has one).
pub fn strip_workspace_prefix(path: &str) -> (r: Option<String>)
    ensures
        r matches Some(s) && s@ == spec_strip_workspace_prefix(path@),
{
    let v = chars_of(path);
    let a = skip_class(v.as_slice(), 0, Strip::Exactly('/'));
    assert(v@.skip(0) == v@);
    let ws = chars_of("~workspace");
    proof {
        reveal_strlit("~workspace");
    }
    let rest = slice_vec(v.as_slice(), a, v.len());
    assert(rest@ == v@.skip(a as int));
    let b = if starts_with(rest.as_slice(), ws.as_slice()) {
        10
    } else {
        0
    };
    assert(rest@.skip(0) == rest@);
    let c = skip_class(rest.as_slice(), b, Strip::Exactly('/'));
    let out = slice_vec(rest.as_slice(), c, rest.len());
    assert(out@ == rest@.skip(c as int));
    Some(string_of(out.as_slice()))
}

} // verus!
