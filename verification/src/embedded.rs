//! The read-only tree of system skills shipped with the server: listing a
//! directory, reading a file, and the MIME type of a file by its extension.
use vstd::prelude::*;

use crate::shell::builtins::last_index;
use crate::skills::SkillStoreError;
use crate::text::{chars_of, str_is, string_of};
use crate::sorting::{insert_sorted, sort_by_key};
use crate::vfs::{DirEntry, EntryKind};

verus! {

broadcast use vstd::string::group_string_axioms;

/// A file of the tree; its path is relative to the tree's root.
#[derive(Clone, Debug)]
pub struct EmbeddedFile {
    pub path: String,
    pub contents: Vec<u8>,
}

/// A directory of the tree; its path is relative to the tree's root (empty
/// for the root itself).
pub struct EmbeddedDir {
    pub path: String,
    pub dirs: Vec<EmbeddedDir>,
    pub files: Vec<EmbeddedFile>,
}

// ---------------------------------------------------------------------------
// File names and types.
// ---------------------------------------------------------------------------

/// A segment `Path::components` keeps: not empty and not `.`.
pub open spec fn named(x: Seq<char>) -> bool {
    x.len() > 0 && x != "."@
}

/// The components of `path` that `Path::components` yields as names.
pub open spec fn named_segments(parts: Seq<Seq<char>>) -> Seq<Seq<char>>
    decreases parts.len(),
{
    if parts.len() == 0 {
        Seq::empty()
    } else if named(parts.last()) {
        named_segments(parts.drop_last()).push(parts.last())
    } else {
        named_segments(parts.drop_last())
    }
}

/// `Path::file_name`, empty when there is none: the last component, unless
/// it is `..` or the path has no component.
pub open spec fn file_name(path: Seq<char>) -> Seq<char> {
    let segs = named_segments(crate::text::split(path, '/'));
    if segs.len() == 0 || segs.last() == ".."@ {
        Seq::empty()
    } else {
        segs.last()
    }
}

/// The file name of `path`, as `Path::file_name` gives it (empty for none).
pub fn file_name_of(path: &str) -> (r: Vec<char>)
    ensures
        r@ == file_name(path@),
{
    let parts = crate::text::split_on(chars_of(path).as_slice(), '/');
    let ghost pv = crate::text::views(parts@);
    let mut last: Option<usize> = None;
    let mut i: usize = 0;
    while i < parts.len()
        invariant
            i <= parts.len(),
            pv == crate::text::views(parts@),
            pv == crate::text::split(path@, '/'),
            match last {
                Some(k) => k < i && named_segments(pv.take(i as int)).len() > 0 && named_segments(
                    pv.take(i as int),
                ).last() == pv[k as int],
                None => named_segments(pv.take(i as int)).len() == 0,
            },
        decreases parts.len() - i,
    {
        assert(pv.take(i + 1).drop_last() == pv.take(i as int));
        assert(pv.take(i + 1).last() == parts@[i as int]@);
        let p = &parts[i];
        if p.len() > 0 && !str_is(".", p.as_slice()) {
            last = Some(i);
        }
        i += 1;
    }
    assert(pv.take(parts.len() as int) == pv);
    match last {
        Some(k) => {
            if str_is("..", parts[k].as_slice()) {
                Vec::new()
            } else {
                crate::text::copy_chars(parts[k].as_slice())
            }
        },
        None => Vec::new(),
    }
}

/// The extension of the file `path` names (`Path::extension`): what follows
/// the last dot, unless that dot starts the name.
pub open spec fn path_extension(path: Seq<char>) -> Option<Seq<char>> {
    let name = file_name(path);
    match last_index(name, '.') {
        Some(i) => if i > 0 {
            Some(name.skip(i + 1))
        } else {
            None
        },
        None => None,
    }
}

pub open spec fn spec_mime_for(path: Seq<char>) -> Option<Seq<char>> {
    match path_extension(path) {
        Some(e) => if e == "md"@ {
            Some("text/markdown"@)
        } else if e == "py"@ {
            Some("text/x-python"@)
        } else if e == "sh"@ {
            Some("text/x-shellscript"@)
        } else if e == "json"@ {
            Some("application/json"@)
        } else if e == "yaml"@ || e == "yml"@ {
            Some("application/yaml"@)
        } else if e == "txt"@ {
            Some("text/plain"@)
        } else {
            None
        },
        None => None,
    }
}

/// The extension of the file `path` names.
pub fn extension_of(path: &str) -> (r: Option<Vec<char>>)
    ensures
        match (r, path_extension(path@)) {
            (Some(e), Some(s)) => e@ == s,
            (None, None) => true,
            _ => false,
        },
{
    let nv = file_name_of(path);
    let mut i = nv.len();
    assert(nv@.take(i as int) =~= nv@);
    while i > 0
        invariant
            i <= nv.len(),
            nv@ == file_name(path@),
            last_index(nv@, '.') == last_index(nv@.take(i as int), '.'),
        decreases i,
    {
        if nv[i - 1] == '.' {
            proof {
                assert(nv@.take(i as int).last() == '.');
                assert(last_index(nv@.take(i as int), '.') == Some(i - 1));
            }
            if i - 1 > 0 {
                return Some(crate::text::slice_vec(nv.as_slice(), i, nv.len()));
            }
            return None;
        }
        assert(nv@.take(i as int).drop_last() =~= nv@.take(i - 1));
        i -= 1;
    }
    None
}

/// The MIME type of a file of the tree, by its extension.
pub fn mime_for(path: &str) -> (r: Option<&'static str>)
    ensures
        match (r, spec_mime_for(path@)) {
            (Some(m), Some(s)) => m@ == s,
            (None, None) => true,
            _ => false,
        },
{
    match extension_of(path) {
        Some(e) => {
            if str_is("md", e.as_slice()) {
                Some("text/markdown")
            } else if str_is("py", e.as_slice()) {
                Some("text/x-python")
            } else if str_is("sh", e.as_slice()) {
                Some("text/x-shellscript")
            } else if str_is("json", e.as_slice()) {
                Some("application/json")
            } else if str_is("yaml", e.as_slice()) || str_is("yml", e.as_slice()) {
                Some("application/yaml")
            } else if str_is("txt", e.as_slice()) {
                Some("text/plain")
            } else {
                None
            }
        },
        None => None,
    }
}

// ---------------------------------------------------------------------------
// Finding directories and files.
// ---------------------------------------------------------------------------

/// The directory of the tree at `path`, searching children before
/// grandchildren of each child, in order.
pub open spec fn find_dir(dirs: Seq<EmbeddedDir>, path: Seq<char>) -> Option<EmbeddedDir>
    decreases dirs,
{
    if dirs.len() == 0 {
        None
    } else {
        let first = dirs[0];
        if first.path@ == path {
            Some(first)
        } else {
            match find_dir(first.dirs@, path) {
                Some(d) => Some(d),
                None => find_dir(dirs.drop_first(), path),
            }
        }
    }
}

/// The file of the tree at `path`: the directory's own files first, then
/// its subdirectories in order.
pub open spec fn find_file(dir: EmbeddedDir, path: Seq<char>) -> Option<EmbeddedFile>
    decreases dir, 1int,
{
    match first_file(dir.files@, path) {
        Some(f) => Some(f),
        None => find_file_in(dir.dirs@, path),
    }
}

pub open spec fn find_file_in(dirs: Seq<EmbeddedDir>, path: Seq<char>) -> Option<EmbeddedFile>
    decreases dirs, 0int,
{
    if dirs.len() == 0 {
        None
    } else {
        match find_file(dirs[0], path) {
            Some(f) => Some(f),
            None => find_file_in(dirs.drop_first(), path),
        }
    }
}

pub open spec fn first_file(files: Seq<EmbeddedFile>, path: Seq<char>) -> Option<EmbeddedFile>
    decreases files.len(),
{
    if files.len() == 0 {
        None
    } else if files[0].path@ == path {
        Some(files[0])
    } else {
        first_file(files.drop_first(), path)
    }
}

/// The first directory of `dirs` (searched depth-first) whose path is `path`.
pub fn get_dir<'a>(dirs: &'a Vec<EmbeddedDir>, path: &[char]) -> (r: Option<&'a EmbeddedDir>)
    ensures
        match (r, find_dir(dirs@, path@)) {
            (Some(d), Some(s)) => *d == s,
            (None, None) => true,
            _ => false,
        },
    decreases dirs@,
{
    let mut i: usize = 0;
    assert(dirs@.skip(0) == dirs@);
    while i < dirs.len()
        invariant
            i <= dirs.len(),
            find_dir(dirs@, path@) == find_dir(dirs@.skip(i as int), path@),
        decreases dirs.len() - i,
    {
        let first = &dirs[i];
        assert(dirs@.skip(i as int)[0] == dirs@[i as int]);
        assert(dirs@.skip(i as int).drop_first() == dirs@.skip(i + 1));
        if str_is(first.path.as_str(), path) {
            return Some(first);
        }
        assert(decreases_to!(dirs@ => dirs@[i as int]));
        match get_dir(&first.dirs, path) {
            Some(d) => {
                return Some(d);
            },
            None => {},
        }
        i += 1;
    }
    None
}

/// The first file of `files` whose path is `path`.
fn get_file_here<'a>(files: &'a Vec<EmbeddedFile>, path: &[char]) -> (r: Option<&'a EmbeddedFile>)
    ensures
        match (r, first_file(files@, path@)) {
            (Some(f), Some(s)) => *f == s,
            (None, None) => true,
            _ => false,
        },
{
    let mut i: usize = 0;
    assert(files@.skip(0) == files@);
    while i < files.len()
        invariant
            i <= files.len(),
            first_file(files@, path@) == first_file(files@.skip(i as int), path@),
        decreases files.len() - i,
    {
        assert(files@.skip(i as int)[0] == files@[i as int]);
        assert(files@.skip(i as int).drop_first() == files@.skip(i + 1));
        if str_is(files[i].path.as_str(), path) {
            return Some(&files[i]);
        }
        i += 1;
    }
    None
}

/// The file of the tree under `dir` whose path is `path`.
pub fn get_file<'a>(dir: &'a EmbeddedDir, path: &[char]) -> (r: Option<&'a EmbeddedFile>)
    ensures
        match (r, find_file(*dir, path@)) {
            (Some(f), Some(s)) => *f == s,
            (None, None) => true,
            _ => false,
        },
    decreases *dir,
{
    match get_file_here(&dir.files, path) {
        Some(f) => {
            return Some(f);
        },
        None => {},
    }
    let mut i: usize = 0;
    assert(dir.dirs@.skip(0) == dir.dirs@);
    while i < dir.dirs.len()
        invariant
            i <= dir.dirs.len(),
            find_file(*dir, path@) == find_file_in(dir.dirs@, path@),
            find_file_in(dir.dirs@, path@) == find_file_in(dir.dirs@.skip(i as int), path@),
        decreases dir.dirs.len() - i,
    {
        assert(dir.dirs@.skip(i as int)[0] == dir.dirs@[i as int]);
        assert(dir.dirs@.skip(i as int).drop_first() == dir.dirs@.skip(i + 1));
        assert(decreases_to!(*dir => dir.dirs@[i as int]));
        match get_file(&dir.dirs[i], path) {
            Some(f) => {
                return Some(f);
            },
            None => {},
        }
        i += 1;
    }
    None
}

// ---------------------------------------------------------------------------
// Listing and reading.
// ---------------------------------------------------------------------------

/// The entry fields a listing determines.
pub open spec fn entry_matches(e: DirEntry, name: Seq<char>, kind: EntryKind, size: Option<i64>, mime: Option<Seq<char>>) -> bool {
    &&& e.name@ == name
    &&& e.kind == kind
    &&& e.size == size
    &&& e.updated_at == 0
    &&& match (e.mime_type, mime) {
        (Some(m), Some(s)) => m@ == s,
        (None, None) => true,
        _ => false,
    }
}

/// The listing of `d` before sorting: its directories, then its files,
/// by the fields that describe them.
pub open spec fn listing_matches(entries: Seq<DirEntry>, d: EmbeddedDir) -> bool {
    &&& entries.len() == d.dirs@.len() + d.files@.len()
    &&& forall|i: int|
        0 <= i < d.dirs@.len() ==> entry_matches(
            #[trigger] entries[i],
            file_name(d.dirs@[i].path@),
            EntryKind::Directory,
            None,
            None,
        )
    &&& forall|i: int|
        0 <= i < d.files@.len() ==> entry_matches(
            #[trigger] entries[d.dirs@.len() + i],
            file_name(d.files@[i].path@),
            EntryKind::File,
            Some(d.files@[i].contents@.len() as i64),
            spec_mime_for(d.files@[i].path@),
        )
}

/// The directory at `path` (the root when `path` is empty).
pub open spec fn dir_at(root: EmbeddedDir, path: Seq<char>) -> Option<EmbeddedDir> {
    if path.len() == 0 {
        Some(root)
    } else {
        find_dir(root.dirs@, path)
    }
}

/// Lists the system skill directory at `path`, sorted by name.
pub fn system_list(root: &EmbeddedDir, path: &str) -> (r: Result<Vec<DirEntry>, SkillStoreError>)
    ensures
        dir_at(*root, path@) is None ==> (r matches Err(SkillStoreError::NotFound(p)) && p@ == path@),
        dir_at(*root, path@) matches Some(d) ==> (r matches Ok(v) && exists|unsorted: Seq<DirEntry>|
            listing_matches(unsorted, d) && v@ == sort_by_key(unsorted)),
{
    let pv = chars_of(path);
    let dir: &EmbeddedDir = if pv.len() == 0 {
        root
    } else {
        match get_dir(&root.dirs, pv.as_slice()) {
            Some(d) => d,
            None => {
                return Err(SkillStoreError::NotFound(path.to_owned()));
            },
        }
    };
    let ghost mut unsorted: Seq<DirEntry> = Seq::empty();
    let mut sorted: Vec<DirEntry> = Vec::new();
    let mut i: usize = 0;
    while i < dir.dirs.len()
        invariant
            i <= dir.dirs.len(),
            unsorted.len() == i,
            sorted@ == sort_by_key(unsorted),
            forall|k: int|
                0 <= k < i ==> entry_matches(
                    #[trigger] unsorted[k],
                    file_name(dir.dirs@[k].path@),
                    EntryKind::Directory,
                    None,
                    None,
                ),
        decreases dir.dirs.len() - i,
    {
        let name = string_of(file_name_of(dir.dirs[i].path.as_str()).as_slice());
        let e = DirEntry {
            name,
            kind: EntryKind::Directory,
            size: None,
            updated_at: 0,
            mime_type: None,
        };
        let ghost before = unsorted;
        proof {
            unsorted = unsorted.push(e);
        }
        insert_sorted(&mut sorted, e);
        assert(unsorted.drop_last() == before);
        i += 1;
    }
    let nd = dir.dirs.len();
    let mut j: usize = 0;
    while j < dir.files.len()
        invariant
            j <= dir.files.len(),
            nd == dir.dirs@.len(),
            unsorted.len() == nd + j,
            sorted@ == sort_by_key(unsorted),
            forall|k: int|
                0 <= k < nd ==> entry_matches(
                    #[trigger] unsorted[k],
                    file_name(dir.dirs@[k].path@),
                    EntryKind::Directory,
                    None,
                    None,
                ),
            forall|k: int|
                0 <= k < j ==> entry_matches(
                    #[trigger] unsorted[nd + k],
                    file_name(dir.files@[k].path@),
                    EntryKind::File,
                    Some(dir.files@[k].contents@.len() as i64),
                    spec_mime_for(dir.files@[k].path@),
                ),
        decreases dir.files.len() - j,
    {
        let f = &dir.files[j];
        let name = string_of(file_name_of(f.path.as_str()).as_slice());
        let mime = match mime_for(f.path.as_str()) {
            Some(m) => Some(m.to_owned()),
            None => None,
        };
        let e = DirEntry {
            name,
            kind: EntryKind::File,
            size: Some(f.contents.len() as i64),
            updated_at: 0,
            mime_type: mime,
        };
        let ghost before = unsorted;
        proof {
            unsorted = unsorted.push(e);
        }
        insert_sorted(&mut sorted, e);
        assert(unsorted.drop_last() == before);
        j += 1;
    }
    assert(listing_matches(unsorted, *dir));
    Ok(sorted)
}

/// Reads a system skill file: its bytes and its MIME type.
pub fn system_read(root: &EmbeddedDir, path: &str) -> (r: Result<(Vec<u8>, Option<String>), SkillStoreError>)
    ensures
        find_file(*root, path@) is None ==> (r matches Err(SkillStoreError::NotFound(p)) && p@ == path@),
        find_file(*root, path@) matches Some(f) ==> (r matches Ok((bytes, mime)) && bytes@
            == f.contents@ && match (mime, spec_mime_for(f.path@)) {
            (Some(m), Some(s)) => m@ == s,
            (None, None) => true,
            _ => false,
        }),
{
    let pv = chars_of(path);
    match get_file(root, pv.as_slice()) {
        Some(f) => {
            let mime = match mime_for(f.path.as_str()) {
                Some(m) => Some(m.to_owned()),
                None => None,
            };
            Ok((f.contents.clone(), mime))
        },
        None => Err(SkillStoreError::NotFound(path.to_owned())),
    }
}

// ---------------------------------------------------------------------------
// Listing and reading agree.
// ---------------------------------------------------------------------------

/// `f` is a file somewhere under `d`.
pub open spec fn file_in_tree(d: EmbeddedDir, f: EmbeddedFile) -> bool
    decreases d, 1int,
{
    d.files@.contains(f) || file_in_dirs(d.dirs@, f)
}

pub open spec fn file_in_dirs(dirs: Seq<EmbeddedDir>, f: EmbeddedFile) -> bool
    decreases dirs, 0int,
{
    if dirs.len() == 0 {
        false
    } else {
        file_in_tree(dirs[0], f) || file_in_dirs(dirs.drop_first(), f)
    }
}

/// `x` is `d` or a directory somewhere under it.
pub open spec fn dir_in_tree(d: EmbeddedDir, x: EmbeddedDir) -> bool
    decreases d, 1int,
{
    d == x || dir_in_dirs(d.dirs@, x)
}

pub open spec fn dir_in_dirs(dirs: Seq<EmbeddedDir>, x: EmbeddedDir) -> bool
    decreases dirs, 0int,
{
    if dirs.len() == 0 {
        false
    } else {
        dir_in_tree(dirs[0], x) || dir_in_dirs(dirs.drop_first(), x)
    }
}

/// The path of entry `name` in the directory at `dir` (the root when empty).
pub open spec fn child_path(dir: Seq<char>, name: Seq<char>) -> Seq<char> {
    if dir.len() == 0 {
        name
    } else {
        dir + seq!['/'] + name
    }
}

/// A tree as it is embedded: the root's path is empty, no two files share a
/// path, and each file's path is its directory's path and its name.
pub open spec fn tree_wf(root: EmbeddedDir) -> bool {
    &&& root.path@.len() == 0
    &&& forall|f: EmbeddedFile, g: EmbeddedFile|
        #![trigger file_in_tree(root, f), file_in_tree(root, g)]
        file_in_tree(root, f) && file_in_tree(root, g) && f.path@ == g.path@ ==> f == g
    &&& forall|x: EmbeddedDir, f: EmbeddedFile|
        #![trigger dir_in_tree(root, x), x.files@.contains(f)]
        dir_in_tree(root, x) && x.files@.contains(f) ==> f.path@ == child_path(
            x.path@,
            file_name(f.path@),
        )
}

proof fn lemma_first_file_found(files: Seq<EmbeddedFile>, p: Seq<char>)
    ensures
        first_file(files, p) matches Some(g) ==> g.path@ == p && files.contains(g),
        (exists|k: int| 0 <= k < files.len() && #[trigger] files[k].path@ == p) ==> first_file(
            files,
            p,
        ) is Some,
    decreases files.len(),
{
    if files.len() > 0 {
        lemma_first_file_found(files.drop_first(), p);
        if let Some(g) = first_file(files.drop_first(), p) {
            let k = choose|k: int| 0 <= k < files.drop_first().len() && files.drop_first()[k] == g;
            assert(files[k + 1] == g);
        }
        if exists|k: int| 0 <= k < files.len() && #[trigger] files[k].path@ == p {
            let k = choose|k: int| 0 <= k < files.len() && #[trigger] files[k].path@ == p;
            if k > 0 {
                assert(files.drop_first()[k - 1].path@ == p);
            }
        }
        assert(files[0] == files[0]);
        assert(files.contains(files[0]));
    }
}

/// What `find_file` finds is a file of the tree with that path, and it
/// finds something for the path of every file of the tree.
proof fn lemma_find_file(d: EmbeddedDir, p: Seq<char>)
    ensures
        find_file(d, p) matches Some(g) ==> g.path@ == p && file_in_tree(d, g),
        forall|f: EmbeddedFile| #[trigger] file_in_tree(d, f) && f.path@ == p ==> find_file(d, p) is Some,
    decreases d, 1int,
{
    lemma_first_file_found(d.files@, p);
    lemma_find_file_in(d.dirs@, p);
    assert forall|f: EmbeddedFile| #[trigger] file_in_tree(d, f) && f.path@ == p implies find_file(d, p) is Some by {
        if d.files@.contains(f) {
            let k = choose|k: int| 0 <= k < d.files@.len() && d.files@[k] == f;
            assert(d.files@[k].path@ == p);
            assert(first_file(d.files@, p) is Some);
        } else {
            assert(file_in_dirs(d.dirs@, f));
            assert(find_file_in(d.dirs@, p) is Some);
        }
    }
}

proof fn lemma_find_file_in(dirs: Seq<EmbeddedDir>, p: Seq<char>)
    ensures
        find_file_in(dirs, p) matches Some(g) ==> g.path@ == p && file_in_dirs(dirs, g),
        forall|f: EmbeddedFile| #[trigger] file_in_dirs(dirs, f) && f.path@ == p ==> find_file_in(dirs, p) is Some,
    decreases dirs, 0int,
{
    if dirs.len() > 0 {
        lemma_find_file(dirs[0], p);
        lemma_find_file_in(dirs.drop_first(), p);
        assert forall|f: EmbeddedFile| #[trigger] file_in_dirs(dirs, f) && f.path@ == p implies find_file_in(dirs, p) is Some by {
            if file_in_tree(dirs[0], f) {
            } else {
                assert(file_in_dirs(dirs.drop_first(), f));
            }
        }
    }
}

/// What `find_dir` finds is a directory of the tree with that path.
proof fn lemma_find_dir(dirs: Seq<EmbeddedDir>, p: Seq<char>)
    ensures
        find_dir(dirs, p) matches Some(x) ==> x.path@ == p && dir_in_dirs(dirs, x),
    decreases dirs,
{
    if dirs.len() > 0 {
        let first = dirs[0];
        lemma_find_dir(first.dirs@, p);
        lemma_find_dir(dirs.drop_first(), p);
        if first.path@ == p {
            assert(dir_in_tree(first, first));
        } else if let Some(x) = find_dir(first.dirs@, p) {
            assert(dir_in_dirs(first.dirs@, x));
            assert(dir_in_tree(first, x));
        } else if let Some(x) = find_dir(dirs.drop_first(), p) {
            assert(dir_in_dirs(dirs.drop_first(), x));
        }
    }
}

/// The files of a directory of the tree are files of the tree.
proof fn lemma_dir_files_in_tree(d: EmbeddedDir, x: EmbeddedDir, f: EmbeddedFile)
    requires
        dir_in_tree(d, x),
        x.files@.contains(f),
    ensures
        file_in_tree(d, f),
    decreases d, 1int,
{
    if d != x {
        lemma_dirs_files_in_tree(d.dirs@, x, f);
    }
}

proof fn lemma_dirs_files_in_tree(dirs: Seq<EmbeddedDir>, x: EmbeddedDir, f: EmbeddedFile)
    requires
        dir_in_dirs(dirs, x),
        x.files@.contains(f),
    ensures
        file_in_dirs(dirs, f),
    decreases dirs, 0int,
{
    if dirs.len() > 0 {
        if dir_in_tree(dirs[0], x) {
            lemma_dir_files_in_tree(dirs[0], x, f);
        } else {
            lemma_dirs_files_in_tree(dirs.drop_first(), x, f);
        }
    }
}

/// Listing and reading agree: a file that `system_list` shows in the
/// directory at `dir` is what `system_read` returns for that directory's
/// path and the entry's name, so the bytes read have the size the listing
/// gave and the same MIME type.
pub proof fn lemma_listed_files_read_back(root: EmbeddedDir, dir: Seq<char>, i: int)
    requires
        tree_wf(root),
        dir_at(root, dir) is Some,
        0 <= i < dir_at(root, dir).unwrap().files@.len(),
    ensures
        ({
            let f = dir_at(root, dir).unwrap().files@[i];
            find_file(root, child_path(dir, file_name(f.path@))) == Some(f)
        }),
{
    let d = dir_at(root, dir).unwrap();
    let f = d.files@[i];
    assert(d.files@.contains(f));
    if dir.len() == 0 {
        assert(d == root);
        assert(dir_in_tree(root, root));
    } else {
        lemma_find_dir(root.dirs@, dir);
        assert(dir_in_tree(root, d));
    }
    assert(d.path@ == dir) by {
        if dir.len() == 0 {
            assert(root.path@ =~= dir);
        }
    }
    assert(dir_in_tree(root, d) && d.files@.contains(f));
    assert(f.path@ == child_path(d.path@, file_name(f.path@)));
    lemma_dir_files_in_tree(root, d, f);
    let p = f.path@;
    lemma_find_file(root, p);
    let g = find_file(root, p).unwrap();
    assert(file_in_tree(root, g) && file_in_tree(root, f) && g.path@ == f.path@);
}

/// The sorted listing `system_list` returns agrees with `system_read`: every
/// file entry of the listing of the directory at `dir` names a file that
/// `system_read` finds at the directory's path and the entry's name, whose
/// bytes have the size the entry gives and whose MIME type is the entry's.
pub proof fn lemma_listing_agrees_with_reading(root: EmbeddedDir, dir: Seq<char>, unsorted: Seq<DirEntry>)
    requires
        tree_wf(root),
        dir_at(root, dir) is Some,
        listing_matches(unsorted, dir_at(root, dir).unwrap()),
    ensures
        forall|e: DirEntry|
            #[trigger] sort_by_key(unsorted).contains(e) && e.kind == EntryKind::File ==> (find_file(
                root,
                child_path(dir, e.name@),
            ) matches Some(f) && e.size == Some(f.contents@.len() as i64) && match (
                e.mime_type,
                spec_mime_for(f.path@),
            ) {
                (Some(m), Some(t)) => m@ == t,
                (None, None) => true,
                _ => false,
            }),
{
    broadcast use vstd::seq_lib::group_to_multiset_ensures;

    let d = dir_at(root, dir).unwrap();
    crate::sorting::lemma_sort_by_key(unsorted);
    assert forall|e: DirEntry|
        #[trigger] sort_by_key(unsorted).contains(e) && e.kind == EntryKind::File implies (find_file(
            root,
            child_path(dir, e.name@),
        ) matches Some(f) && e.size == Some(f.contents@.len() as i64) && match (
            e.mime_type,
            spec_mime_for(f.path@),
        ) {
            (Some(m), Some(t)) => m@ == t,
            (None, None) => true,
            _ => false,
        }) by {
        assert(sort_by_key(unsorted).to_multiset().count(e) > 0);
        assert(unsorted.contains(e));
        let j = choose|j: int| 0 <= j < unsorted.len() && unsorted[j] == e;
        let nd = d.dirs@.len() as int;
        if j < nd {
            assert(entry_matches(unsorted[j], file_name(d.dirs@[j].path@), EntryKind::Directory, None, None));
        } else {
            let i = j - nd;
            assert(unsorted[nd + i] == e);
            assert(entry_matches(
                unsorted[nd + i],
                file_name(d.files@[i].path@),
                EntryKind::File,
                Some(d.files@[i].contents@.len() as i64),
                spec_mime_for(d.files@[i].path@),
            ));
            lemma_listed_files_read_back(root, dir, i);
        }
    }
}

} // verus!
