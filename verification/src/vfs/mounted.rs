//! The mount table the agent sees: its workspace at `/home/agent`, the user's
//! tree at `/home/user` (read-only except for granted prefixes), and synthetic
//! unix ownership derived from those rules.
use vstd::prelude::*;

use crate::text::{
    chars_eq, chars_of, contains, contains_seq, has_prefix, is_control, is_ctrl, join,
    join_range, split, split_on, starts_with, str_is, string_of, trim_by, trimmed, views, Strip,
};
use crate::vfs::{DirEntry, EntryKind};

verus! {

broadcast use vstd::string::group_string_axioms;

/// A workspace identifier, carried through unchanged.
#[verifier::external_type_specification]
#[verifier::external_body]
pub struct ExUuid(uuid::Uuid);

/// Absolute mount point of a thread's writable workspace tree.
pub const AGENT_HOME: &'static str = "/home/agent";

/// Absolute mount point of the user's global tree.
pub const USER_HOME: &'static str = "/home/user";

/// Top-level global directory holding one folder per project.
pub const PROJECTS_ROOT: &'static str = "Projects";

/// Errno-style errors of the mount layer.
#[derive(Debug, Clone)]
pub enum VfsError {
    NotFound,
    NotADirectory,
    IsADirectory,
    /// Write denied because the target is a read-only mount.
    ReadOnly,
    /// Access denied for another reason than a read-only mount.
    PermissionDenied,
    /// Underlying storage failure carrying its message.
    Storage(String),
}

impl VfsError {
    pub open spec fn spec_message(&self) -> Seq<char> {
        match self {
            VfsError::NotFound => "no such file or directory"@,
            VfsError::NotADirectory => "not a directory"@,
            VfsError::IsADirectory => "is a directory"@,
            VfsError::ReadOnly => "read-only file system"@,
            VfsError::PermissionDenied => "permission denied"@,
            VfsError::Storage(m) => m@,
        }
    }

    /// The text shown for this error.
    pub fn message(&self) -> (r: String)
        ensures
            r@ == self.spec_message(),
    {
        match self {
            VfsError::NotFound => "no such file or directory".to_owned(),
            VfsError::NotADirectory => "not a directory".to_owned(),
            VfsError::IsADirectory => "is a directory".to_owned(),
            VfsError::ReadOnly => "read-only file system".to_owned(),
            VfsError::PermissionDenied => "permission denied".to_owned(),
            VfsError::Storage(m) => m.clone(),
        }
    }

    /// Classifies a storage failure by the words of its message.
    pub fn from_storage(message: String) -> (r: Self)
        ensures
            contains_seq(message@, "not found"@) ==> r is NotFound,
            !contains_seq(message@, "not found"@) && contains_seq(message@, "not a directory"@)
                ==> r is NotADirectory,
            !contains_seq(message@, "not found"@) && !contains_seq(message@, "not a directory"@)
                && contains_seq(message@, "is a directory"@) ==> r is IsADirectory,
            !contains_seq(message@, "not found"@) && !contains_seq(message@, "not a directory"@)
                && !contains_seq(message@, "is a directory"@) ==> (r matches VfsError::Storage(m)
                && m@ == message@),
    {
        let m = chars_of(message.as_str());
        let nf = chars_of("not found");
        let nd = chars_of("not a directory");
        let isd = chars_of("is a directory");
        if contains(m.as_slice(), nf.as_slice()) {
            VfsError::NotFound
        } else if contains(m.as_slice(), nd.as_slice()) {
            VfsError::NotADirectory
        } else if contains(m.as_slice(), isd.as_slice()) {
            VfsError::IsADirectory
        } else {
            VfsError::Storage(message)
        }
    }
}

// ---------------------------------------------------------------------------
// Path resolution.
// ---------------------------------------------------------------------------

/// A segment that names something: not empty, `.` or `..`.
pub open spec fn kept(x: Seq<char>) -> bool {
    x.len() > 0 && x != seq!['.'] && x != seq!['.', '.']
}

/// The parts of `parts` that name something, in order.
pub open spec fn kept_segments(parts: Seq<Seq<char>>) -> Seq<Seq<char>>
    decreases parts.len(),
{
    if parts.len() == 0 {
        Seq::empty()
    } else if kept(parts.last()) {
        kept_segments(parts.drop_last()).push(parts.last())
    } else {
        kept_segments(parts.drop_last())
    }
}

/// The segments of `path` that resolution looks at.
pub open spec fn clean(path: Seq<char>) -> Seq<Seq<char>> {
    kept_segments(split(path, '/'))
}

fn is_kept(x: &Vec<char>) -> (b: bool)
    ensures
        b == kept(x@),
{
    let r = x.len() > 0 && !(x.len() == 1 && x[0] == '.') && !(x.len() == 2 && x[0] == '.' && x[1]
        == '.');
    proof {
        if x@.len() == 1 && x@[0] == '.' {
            assert(x@ =~= seq!['.']);
        }
        if x@.len() == 2 && x@[0] == '.' && x@[1] == '.' {
            assert(x@ =~= seq!['.', '.']);
        }
        if x@ == seq!['.'] {
            assert(x@[0] == '.');
        }
        if x@ == seq!['.', '.'] {
            assert(x@[0] == '.' && x@[1] == '.');
        }
    }
    r
}

/// The segments of `path` that resolution looks at: `.`, `..` and empty
/// segments are dropped.
pub fn clean_segments(path: &[char]) -> (r: Vec<Vec<char>>)
    ensures
        views(r@) == clean(path@),
{
    let parts = split_on(path, '/');
    let ghost all = views(parts@);
    let mut out: Vec<Vec<char>> = Vec::new();
    let mut i: usize = 0;
    while i < parts.len()
        invariant
            i <= parts.len(),
            all == views(parts@),
            all == split(path@, '/'),
            views(out@) == kept_segments(all.take(i as int)),
        decreases parts.len() - i,
    {
        let ghost before = views(out@);
        assert(all.take(i + 1).drop_last() == all.take(i as int));
        assert(all.take(i + 1).last() == parts@[i as int]@);
        if is_kept(&parts[i]) {
            out.push(crate::text::copy_chars(parts[i].as_slice()));
            assert(views(out@) =~= before.push(parts@[i as int]@));
        }
        i += 1;
    }
    assert(all.take(parts.len() as int) == all);
    out
}

/// Where a path lands, as a value of the model.
pub enum LocationV {
    Workspace(Seq<char>),
    Global(Seq<char>, bool),
    Root,
    Home,
    Outside,
}

/// Where a resolved absolute path lands in the mount table.
#[derive(Debug)]
pub enum Location {
    /// Inside the workspace tree; carries the relative path.
    Workspace(String),
    /// Inside the user's tree; carries the relative path and whether it falls
    /// in a writable grant.
    Global { rel: String, writable: bool },
    /// The synthetic root `/`.
    Root,
    /// The synthetic `/home` directory.
    Home,
    /// A path that no storage of this layer backs.
    Outside,
}

impl Location {
    pub open spec fn view(&self) -> LocationV {
        match self {
            Location::Workspace(rel) => LocationV::Workspace(rel@),
            Location::Global { rel, writable } => LocationV::Global(rel@, *writable),
            Location::Root => LocationV::Root,
            Location::Home => LocationV::Home,
            Location::Outside => LocationV::Outside,
        }
    }
}

/// `rel` is the prefix `p` itself or lies below it.
pub open spec fn under_prefix(rel: Seq<char>, p: Seq<char>) -> bool {
    rel == p || has_prefix(rel, p + seq!['/'])
}

/// Some prefix of `grants` covers `rel`.
pub open spec fn allows(grants: Seq<Seq<char>>, rel: Seq<char>) -> bool {
    exists|i: int| 0 <= i < grants.len() && #[trigger] under_prefix(rel, grants[i])
}

/// Mount rules, with no storage handle.
#[derive(Clone)]
pub struct MountTable {
    /// Workspace mounted at `/home/agent`; `None` while a thread has none yet.
    pub workspace: Option<uuid::Uuid>,
    /// Path of the project folder granted read-write under `/home/user`.
    pub project_grant: Option<String>,
    /// Extra writable directories under `/home/user`.
    pub extra: Vec<String>,
}

/// The view of a list of strings.
pub open spec fn string_views(v: Seq<String>) -> Seq<Seq<char>> {
    v.map_values(|s: String| s@)
}

/// The view of an optional string, as a list of zero or one.
pub open spec fn opt_views(o: Option<String>) -> Seq<Seq<char>> {
    match o {
        Some(s) => seq![s@],
        None => Seq::empty(),
    }
}

/// Where a write lands.
pub enum WriteTarget {
    Workspace(uuid::Uuid, String),
    Global(String),
}

impl MountTable {
    /// Every writable prefix: the extra directories, then the project grant.
    pub open spec fn grants(&self) -> Seq<Seq<char>> {
        string_views(self.extra@) + opt_views(self.project_grant)
    }

    /// Where `path` lands.
    pub open spec fn spec_resolve(&self, path: Seq<char>) -> LocationV {
        let segs = clean(path);
        if segs.len() == 0 {
            LocationV::Root
        } else if segs[0] != "home"@ {
            LocationV::Outside
        } else if segs.len() == 1 {
            LocationV::Home
        } else if segs[1] == "agent"@ {
            if self.workspace is Some {
                LocationV::Workspace(join(segs.skip(2), "/"@))
            } else {
                LocationV::Outside
            }
        } else if segs[1] == "user"@ {
            let rel = join(segs.skip(2), "/"@);
            LocationV::Global(rel, allows(self.grants(), rel))
        } else {
            LocationV::Outside
        }
    }

    /// Whether some writable prefix covers `rel`.
    pub fn grant_allows(&self, rel: &[char]) -> (r: bool)
        ensures
            r == allows(self.grants(), rel@),
    {
        let ghost g = self.grants();
        let n = self.extra.len();
        let mut i: usize = 0;
        while i < n
            invariant
                n == self.extra.len(),
                g == self.grants(),
                i <= n,
                forall|j: int| 0 <= j < i ==> !#[trigger] under_prefix(rel@, g[j]),
            decreases n - i,
        {
            assert(g[i as int] == self.extra@[i as int]@);
            if covers(rel, self.extra[i].as_str()) {
                return true;
            }
            i += 1;
        }
        match &self.project_grant {
            Some(p) => {
                assert(g[n as int] == p@);
                if covers(rel, p.as_str()) {
                    return true;
                }
                assert(g.len() == n + 1);
            },
            None => {
                assert(g.len() == n);
            },
        }
        assert forall|j: int| 0 <= j < g.len() implies !#[trigger] under_prefix(rel@, g[j]) by {}
        false
    }

    /// Where `path` lands in the mount table.
    pub fn resolve(&self, path: &str) -> (r: Location)
        ensures
            r.view() == self.spec_resolve(path@),
    {
        let pv = chars_of(path);
        let segs = clean_segments(pv.as_slice());
        let ghost sv = views(segs@);
        let slash = ['/'];
        if segs.len() == 0 {
            return Location::Root;
        }
        if !str_is("home", segs[0].as_slice()) {
            return Location::Outside;
        }
        if segs.len() == 1 {
            return Location::Home;
        }
        if str_is("agent", segs[1].as_slice()) {
            if self.workspace.is_some() {
                let rel = join_range(&segs, 2, segs.len(), slash.as_slice());
                proof {
                    assert(sv.subrange(2, sv.len() as int) == sv.skip(2));
                    assert(slash@ =~= "/"@) by {
                        reveal_strlit("/");
                    }
                }
                return Location::Workspace(string_of(rel.as_slice()));
            }
            return Location::Outside;
        }
        if str_is("user", segs[1].as_slice()) {
            let rel = join_range(&segs, 2, segs.len(), slash.as_slice());
            proof {
                assert(sv.subrange(2, sv.len() as int) == sv.skip(2));
                assert(slash@ =~= "/"@) by {
                    reveal_strlit("/");
                }
            }
            let writable = self.grant_allows(rel.as_slice());
            return Location::Global { rel: string_of(rel.as_slice()), writable };
        }
        Location::Outside
    }

    /// Where a write to `path` goes, or why it is refused.
    pub open spec fn spec_writable(&self, path: Seq<char>) -> Result<(Seq<char>, bool), VfsError> {
        match self.spec_resolve(path) {
            LocationV::Workspace(rel) => Ok((rel, true)),
            LocationV::Global(rel, true) => Ok((rel, false)),
            LocationV::Global(_, false) => Err(VfsError::ReadOnly),
            LocationV::Root => Err(VfsError::ReadOnly),
            LocationV::Home => Err(VfsError::ReadOnly),
            LocationV::Outside => Err(VfsError::NotFound),
        }
    }

    /// Where a write to `path` goes: the workspace, a granted part of the
    /// user's tree, or nowhere.
    pub fn writable(&self, path: &str) -> (r: Result<WriteTarget, VfsError>)
        ensures
            match (r, self.spec_writable(path@)) {
                (Ok(WriteTarget::Workspace(id, rel)), Ok((s, true))) => rel@ == s && self.workspace
                    == Some(id),
                (Ok(WriteTarget::Global(rel)), Ok((s, false))) => rel@ == s,
                (Err(VfsError::ReadOnly), Err(VfsError::ReadOnly)) => true,
                (Err(VfsError::NotFound), Err(VfsError::NotFound)) => true,
                _ => false,
            },
    {
        match self.resolve(path) {
            Location::Workspace(rel) => match self.workspace {
                Some(id) => Ok(WriteTarget::Workspace(id, rel)),
                None => Err(VfsError::NotFound),
            },
            Location::Global { rel, writable } => {
                if writable {
                    Ok(WriteTarget::Global(rel))
                } else {
                    Err(VfsError::ReadOnly)
                }
            },
            Location::Root => Err(VfsError::ReadOnly),
            Location::Home => Err(VfsError::ReadOnly),
            Location::Outside => Err(VfsError::NotFound),
        }
    }
}

/// Whether `rel` is `prefix` itself or lies below it.
fn covers(rel: &[char], prefix: &str) -> (r: bool)
    ensures
        r == under_prefix(rel@, prefix@),
{
    let mut p = chars_of(prefix);
    if chars_eq(rel, p.as_slice()) {
        return true;
    }
    p.push('/');
    assert(p@ =~= prefix@ + seq!['/']);
    starts_with(rel, p.as_slice())
}

// ---------------------------------------------------------------------------
// Synthetic unix identities.
// ---------------------------------------------------------------------------

pub const UID_ROOT: u32 = 0;
pub const GID_ROOT: u32 = 0;
pub const UID_AGENT: u32 = 1000;
pub const GID_AGENT: u32 = 1000;
pub const UID_USER: u32 = 1001;
pub const GID_USER: u32 = 1001;
/// Shared group of granted, group-writable subtrees.
pub const GID_STRIDE: u32 = 1002;

/// Synthetic owner, group and permission bits of a path.
#[derive(Debug, Clone, Copy, PartialEq, Eq, Structural)]
pub struct StatMeta {
    pub uid: u32,
    pub gid: u32,
    pub mode: u32,
}

pub open spec fn spec_uid_name(uid: u32) -> Seq<char> {
    if uid == UID_AGENT {
        "agent"@
    } else if uid == UID_USER {
        "user"@
    } else {
        "root"@
    }
}

pub open spec fn spec_gid_name(gid: u32) -> Seq<char> {
    if gid == GID_AGENT {
        "agent"@
    } else if gid == GID_USER {
        "user"@
    } else if gid == GID_STRIDE {
        "stride"@
    } else {
        "root"@
    }
}

/// The user name of a synthetic uid.
pub fn uid_name(uid: u32) -> (r: &'static str)
    ensures
        r@ == spec_uid_name(uid),
{
    if uid == UID_AGENT {
        "agent"
    } else if uid == UID_USER {
        "user"
    } else {
        "root"
    }
}

/// The group name of a synthetic gid.
pub fn gid_name(gid: u32) -> (r: &'static str)
    ensures
        r@ == spec_gid_name(gid),
{
    if gid == GID_AGENT {
        "agent"
    } else if gid == GID_USER {
        "user"
    } else if gid == GID_STRIDE {
        "stride"
    } else {
        "root"
    }
}

/// Which ownership a path presents.
#[derive(Debug, Clone, Copy, PartialEq, Eq, Structural)]
pub enum Area {
    Agent,
    UserReadOnly,
    Granted,
    System,
}

impl Area {
    pub open spec fn spec_meta(self, is_dir: bool) -> StatMeta {
        match self {
            Area::Agent => StatMeta {
                uid: UID_AGENT,
                gid: GID_AGENT,
                mode: if is_dir { 0o755 } else { 0o644 },
            },
            Area::UserReadOnly => StatMeta {
                uid: UID_USER,
                gid: GID_USER,
                mode: if is_dir { 0o755 } else { 0o644 },
            },
            Area::Granted => StatMeta {
                uid: UID_USER,
                gid: GID_STRIDE,
                mode: if is_dir { 0o775 } else { 0o664 },
            },
            Area::System => StatMeta {
                uid: UID_ROOT,
                gid: GID_ROOT,
                mode: if is_dir { 0o755 } else { 0o644 },
            },
        }
    }

    /// The metadata of a directory or file in this area.
    pub fn meta(self, is_dir: bool) -> (r: StatMeta)
        ensures
            r == self.spec_meta(is_dir),
    {
        match self {
            Area::Agent => StatMeta {
                uid: UID_AGENT,
                gid: GID_AGENT,
                mode: if is_dir { 0o755 } else { 0o644 },
            },
            Area::UserReadOnly => StatMeta {
                uid: UID_USER,
                gid: GID_USER,
                mode: if is_dir { 0o755 } else { 0o644 },
            },
            Area::Granted => StatMeta {
                uid: UID_USER,
                gid: GID_STRIDE,
                mode: if is_dir { 0o775 } else { 0o664 },
            },
            Area::System => StatMeta {
                uid: UID_ROOT,
                gid: GID_ROOT,
                mode: if is_dir { 0o755 } else { 0o644 },
            },
        }
    }
}

pub open spec fn spec_area_of(l: LocationV) -> Area {
    match l {
        LocationV::Workspace(_) => Area::Agent,
        LocationV::Global(_, true) => Area::Granted,
        LocationV::Global(_, false) => Area::UserReadOnly,
        _ => Area::System,
    }
}

/// The ownership a location presents.
pub fn area_of(location: &Location) -> (r: Area)
    ensures
        r == spec_area_of(location.view()),
{
    match location {
        Location::Workspace(_) => Area::Agent,
        Location::Global { writable, .. } => if *writable {
            Area::Granted
        } else {
            Area::UserReadOnly
        },
        _ => Area::System,
    }
}

impl MountTable {
    pub open spec fn spec_stat_meta(&self, path: Seq<char>, is_dir: bool) -> StatMeta {
        spec_area_of(self.spec_resolve(path)).spec_meta(is_dir)
    }

    /// Synthetic uid, gid and mode of `path`, from the mount rules alone.
    pub fn stat_meta(&self, path: &str, is_dir: bool) -> (r: StatMeta)
        ensures
            r == self.spec_stat_meta(path@, is_dir),
    {
        area_of(&self.resolve(path)).meta(is_dir)
    }
}

/// What `ls -l` shows agrees with what a write does: a path is writable
/// exactly when it presents as owned by the agent or by the shared group,
/// writes into the workspace exactly where the agent owns the path, and every
/// write into the user's tree lands under a granted prefix.
pub proof fn lemma_presentation_matches_writes(t: MountTable, path: Seq<char>, is_dir: bool)
    ensures
        t.spec_writable(path) is Ok <==> (t.spec_stat_meta(path, is_dir).uid == UID_AGENT
            || t.spec_stat_meta(path, is_dir).gid == GID_STRIDE),
        t.spec_writable(path) matches Ok((_, true)) <==> t.spec_stat_meta(path, is_dir).uid
            == UID_AGENT,
        t.spec_writable(path) matches Ok((rel, false)) ==> allows(t.grants(), rel),
{
}

// ---------------------------------------------------------------------------
// Listings and project folders.
// ---------------------------------------------------------------------------

/// A directory entry that no storage backs.
pub fn synthetic_dir(name: &str) -> (r: DirEntry)
    ensures
        r.name@ == name@,
        r.kind == EntryKind::Directory,
        r.size is None,
        r.updated_at == 0,
        r.mime_type is None,
{
    DirEntry {
        name: name.to_owned(),
        kind: EntryKind::Directory,
        size: None,
        updated_at: 0,
        mime_type: None,
    }
}

/// Path separators and control characters become hyphens.
pub open spec fn sanitize(c: char) -> char {
    if c == '/' || c == '\\' || is_ctrl(c) {
        '-'
    } else {
        c
    }
}

/// A project title as one safe path segment: when nothing is left of it, or
/// only `.` or `..`, the folder is `Untitled`.
pub open spec fn spec_project_dir_name(title: Seq<char>) -> Seq<char> {
    let mapped = title.map_values(|c: char| sanitize(c));
    let name = trim_by(trim_by(trim_by(mapped, Strip::Whitespace), Strip::Exactly('.')), Strip::Whitespace);
    if name.len() == 0 || name == seq!['.'] || name == seq!['.', '.'] {
        "Untitled"@
    } else {
        name
    }
}

/// Sanitizes a project title into a single safe path segment.
pub fn project_dir_name(title: &str) -> (r: String)
    ensures
        r@ == spec_project_dir_name(title@),
{
    let t = chars_of(title);
    let mut mapped: Vec<char> = Vec::new();
    let mut i: usize = 0;
    while i < t.len()
        invariant
            i <= t.len(),
            t@ == title@,
            mapped@ == t@.take(i as int).map_values(|c: char| sanitize(c)),
        decreases t.len() - i,
    {
        let c = t[i];
        let d = if c == '/' || c == '\\' || is_control(c) {
            '-'
        } else {
            c
        };
        mapped.push(d);
        i += 1;
        assert(t@.take(i as int).map_values(|c: char| sanitize(c)) =~= t@.take(i - 1).map_values(
            |c: char| sanitize(c),
        ).push(d));
    }
    assert(t@.take(t.len() as int) == t@);
    let a = trimmed(mapped.as_slice(), Strip::Whitespace);
    let b = trimmed(a.as_slice(), Strip::Exactly('.'));
    let name = trimmed(b.as_slice(), Strip::Whitespace);
    let dots = (name.len() == 1 && name[0] == '.') || (name.len() == 2 && name[0] == '.'
        && name[1] == '.');
    proof {
        if name@ == seq!['.'] {
            assert(name@[0] == '.');
        }
        if name@ == seq!['.', '.'] {
            assert(name@[0] == '.' && name@[1] == '.');
        }
        if dots {
            if name.len() == 1 {
                assert(name@ =~= seq!['.']);
            } else {
                assert(name@ =~= seq!['.', '.']);
            }
        }
    }
    if name.len() == 0 || dots {
        "Untitled".to_owned()
    } else {
        string_of(name.as_slice())
    }
}

/// Where a project's folder lives in the user's tree.
pub open spec fn spec_project_dir_prefix(title: Seq<char>) -> Seq<char> {
    PROJECTS_ROOT@ + seq!['/'] + spec_project_dir_name(title)
}

/// Builds the global path of a project's folder from its title.
pub fn project_dir_prefix(title: &str) -> (r: String)
    ensures
        r@ == spec_project_dir_prefix(title@),
{
    let mut v = chars_of(PROJECTS_ROOT);
    v.push('/');
    let name = project_dir_name(title);
    let nv = chars_of(name.as_str());
    crate::text::extend(&mut v, nv.as_slice());
    assert(v@ =~= PROJECTS_ROOT@ + seq!['/'] + spec_project_dir_name(title@));
    string_of(v.as_slice())
}

/// A project folder name is one safe path segment: it is never empty, never
/// `.` or `..`, and holds no slash, backslash or control character.
pub proof fn lemma_project_dir_name_is_one_segment(title: Seq<char>)
    ensures
        spec_project_dir_name(title).len() > 0,
        spec_project_dir_name(title) != seq!['.'],
        spec_project_dir_name(title) != seq!['.', '.'],
        forall|i: int|
            0 <= i < spec_project_dir_name(title).len() ==> {
                let c = #[trigger] spec_project_dir_name(title)[i];
                c != '/' && c != '\\' && !is_ctrl(c)
            },
{
    reveal_strlit("Untitled");
    assert("Untitled"@.len() == 8);
    assert(seq!['.'].len() == 1 && seq!['.', '.'].len() == 2);
    let mapped = title.map_values(|c: char| sanitize(c));
    assert forall|i: int| 0 <= i < mapped.len() implies mapped[i] != '/' && mapped[i] != '\\'
        && !is_ctrl(#[trigger] mapped[i]) by {}
    let a = trim_by(mapped, Strip::Whitespace);
    let b = trim_by(a, Strip::Exactly('.'));
    let c = trim_by(b, Strip::Whitespace);
    lemma_trim_inside(mapped, Strip::Whitespace);
    lemma_trim_inside(a, Strip::Exactly('.'));
    lemma_trim_inside(b, Strip::Whitespace);
}

/// Every character of a trimmed text comes from the text.
proof fn lemma_trim_inside(s: Seq<char>, k: Strip)
    ensures
        forall|i: int| 0 <= i < trim_by(s, k).len() ==> exists|j: int| 0 <= j < s.len() && #[trigger] trim_by(s, k)[i] == s[j],
{
    let j0 = crate::text::lemma_trim_start(s, k);
    let t = s.skip(j0);
    let m = crate::text::lemma_trim_end(t, k);
    assert forall|i: int| 0 <= i < trim_by(s, k).len() implies exists|j: int| 0 <= j < s.len() && #[trigger] trim_by(s, k)[i] == s[j] by {
        assert(trim_by(s, k)[i] == s[j0 + i]);
    }
}

} // verus!
