//! The store of user skills: bundles under `skills/` in each user's global
//! tree, beside the built-in system skills, and the one-time migration of
//! skills kept in the old database table.
//!
//! Every operation is evaluated against a log of replies. Each request it
//! makes of the file tree, of the `SKILL.md` codec or of the legacy table
//! takes the next reply from the log; when the log is used up the
//! operation stops and names the request it needs answered. A driver
//! performs the request, appends the reply and evaluates the operation again
//! from the start.
use vstd::prelude::*;

use crate::shell::eval::{first_named, listed_views, Listed};
use crate::skills::{
    copy_error, copy_skill, name_error, push_str, valid_directory_name, valid_name,
    validate_directory_name, validate_name, Skill, SkillManifest, SkillManifestV, SkillStoreError,
    SkillV, StoreErrorV, UserSkillView, UserSkillViewV, USER_SKILLS_HOME, USER_SKILLS_ROOT,
};
use crate::sorting::sort_by;
use crate::text::{chars_of, contains, contains_seq, trim};

verus! {

broadcast use vstd::string::group_string_axioms;

// ---------------------------------------------------------------------------
// Requests and replies.
// ---------------------------------------------------------------------------

/// A request the store makes: of a user's global file tree (the user given
/// by number), of the `SKILL.md` codec, or of the legacy skills table.
#[derive(Debug)]
pub enum StoreOp {
    CreateDir { owner: u128, path: String },
    List { owner: u128, path: String },
    Read { owner: u128, path: String },
    ReadBytes { owner: u128, path: String },
    Write { owner: u128, path: String, content: String },
    Delete { owner: u128, path: String },
    /// Parse a user's `SKILL.md` text found in directory `name`, shown at `path`.
    Parse { raw: String, name: String, path: String },
    /// Render a manifest and body as a `SKILL.md` file.
    Render { manifest: SkillManifest, content: String },
    /// Render a manifest and body for a backup, without checking the manifest.
    RenderBackup { manifest: SkillManifest, content: String },
    /// Delete the legacy row with this id.
    DeleteLegacy(u128),
}

pub enum StoreOpV {
    CreateDir(u128, Seq<char>),
    List(u128, Seq<char>),
    Read(u128, Seq<char>),
    ReadBytes(u128, Seq<char>),
    Write(u128, Seq<char>, Seq<char>),
    Delete(u128, Seq<char>),
    Parse(Seq<char>, Seq<char>, Seq<char>),
    Render(SkillManifestV, Seq<char>),
    RenderBackup(SkillManifestV, Seq<char>),
    DeleteLegacy(u128),
}

impl View for StoreOp {
    type V = StoreOpV;

    open spec fn view(&self) -> StoreOpV {
        match self {
            StoreOp::CreateDir { owner, path } => StoreOpV::CreateDir(*owner, path@),
            StoreOp::List { owner, path } => StoreOpV::List(*owner, path@),
            StoreOp::Read { owner, path } => StoreOpV::Read(*owner, path@),
            StoreOp::ReadBytes { owner, path } => StoreOpV::ReadBytes(*owner, path@),
            StoreOp::Write { owner, path, content } => StoreOpV::Write(*owner, path@, content@),
            StoreOp::Delete { owner, path } => StoreOpV::Delete(*owner, path@),
            StoreOp::Parse { raw, name, path } => StoreOpV::Parse(raw@, name@, path@),
            StoreOp::Render { manifest, content } => StoreOpV::Render(manifest@, content@),
            StoreOp::RenderBackup { manifest, content } => StoreOpV::RenderBackup(
                manifest@,
                content@,
            ),
            StoreOp::DeleteLegacy(id) => StoreOpV::DeleteLegacy(*id),
        }
    }
}

/// The answer to a request: a change's outcome (the error's text when it
/// failed), a listing, a text, bytes, a parsed skill or a rendered file.
#[derive(Debug)]
pub enum StoreReply {
    Done(Result<(), String>),
    Entries(Result<Vec<Listed>, String>),
    Text(Result<String, String>),
    Bytes(Result<Vec<u8>, String>),
    Parsed(Result<Skill, SkillStoreError>),
    Rendered(Result<String, SkillStoreError>),
}

pub enum StoreReplyV {
    Done(Result<(), Seq<char>>),
    Entries(Result<Seq<(Seq<char>, bool)>, Seq<char>>),
    Text(Result<Seq<char>, Seq<char>>),
    Bytes(Result<Seq<u8>, Seq<char>>),
    Parsed(Result<SkillV, StoreErrorV>),
    Rendered(Result<Seq<char>, StoreErrorV>),
}

impl View for StoreReply {
    type V = StoreReplyV;

    open spec fn view(&self) -> StoreReplyV {
        match self {
            StoreReply::Done(r) => StoreReplyV::Done(
                match r {
                    Ok(_) => Ok(()),
                    Err(e) => Err(e@),
                },
            ),
            StoreReply::Entries(r) => StoreReplyV::Entries(
                match r {
                    Ok(v) => Ok(listed_views(v@)),
                    Err(e) => Err(e@),
                },
            ),
            StoreReply::Text(r) => StoreReplyV::Text(
                match r {
                    Ok(t) => Ok(t@),
                    Err(e) => Err(e@),
                },
            ),
            StoreReply::Bytes(r) => StoreReplyV::Bytes(
                match r {
                    Ok(b) => Ok(b@),
                    Err(e) => Err(e@),
                },
            ),
            StoreReply::Parsed(r) => StoreReplyV::Parsed(
                match r {
                    Ok(s) => Ok(s@),
                    Err(e) => Err(e@),
                },
            ),
            StoreReply::Rendered(r) => StoreReplyV::Rendered(
                match r {
                    Ok(t) => Ok(t@),
                    Err(e) => Err(e@),
                },
            ),
        }
    }
}

pub open spec fn store_replies(rs: Seq<StoreReply>) -> Seq<StoreReplyV> {
    rs.map_values(|r: StoreReply| r@)
}

/// A reply of another kind than the one asked for counts as a failure with
/// no text.
pub open spec fn as_done(r: StoreReplyV) -> Result<(), Seq<char>> {
    match r {
        StoreReplyV::Done(x) => x,
        _ => Err(Seq::empty()),
    }
}

pub open spec fn as_entries(r: StoreReplyV) -> Result<Seq<(Seq<char>, bool)>, Seq<char>> {
    match r {
        StoreReplyV::Entries(x) => x,
        _ => Err(Seq::empty()),
    }
}

pub open spec fn as_text(r: StoreReplyV) -> Result<Seq<char>, Seq<char>> {
    match r {
        StoreReplyV::Text(x) => x,
        _ => Err(Seq::empty()),
    }
}

pub open spec fn as_bytes(r: StoreReplyV) -> Result<Seq<u8>, Seq<char>> {
    match r {
        StoreReplyV::Bytes(x) => x,
        _ => Err(Seq::empty()),
    }
}

pub open spec fn as_parsed(r: StoreReplyV) -> Result<SkillV, StoreErrorV> {
    match r {
        StoreReplyV::Parsed(x) => x,
        _ => Err(StoreErrorV::Internal(Seq::empty())),
    }
}

pub open spec fn as_rendered(r: StoreReplyV) -> Result<Seq<char>, StoreErrorV> {
    match r {
        StoreReplyV::Rendered(x) => x,
        _ => Err(StoreErrorV::Internal(Seq::empty())),
    }
}

/// Where an evaluation stands: answered, with its value and how many
/// replies it has used, or waiting for a request to be answered.
pub enum Asked<T> {
    Answered(T, nat),
    Waiting(StoreOpV),
}

/// The reply at `c`, or a wait for `op` when the log has no more.
pub open spec fn ask(rs: Seq<StoreReplyV>, c: nat, op: StoreOpV) -> Asked<StoreReplyV> {
    if c < rs.len() {
        Asked::Answered(rs[c as int], c + 1)
    } else {
        Asked::Waiting(op)
    }
}

/// The replies an evaluation reads, and how many it has used.
pub struct Replay<'a> {
    pub replies: &'a [StoreReply],
    pub cursor: usize,
}

impl<'a> Replay<'a> {
    pub open spec fn rv(&self) -> Seq<StoreReplyV> {
        store_replies(self.replies@)
    }

    pub fn new(replies: &'a [StoreReply]) -> (r: Replay<'a>)
        ensures
            r.replies == replies,
            r.cursor == 0,
    {
        Replay { replies, cursor: 0 }
    }

    fn ask(&mut self, op: StoreOp) -> (r: Result<&'a StoreReply, StoreOp>)
        ensures
            final(self).replies == old(self).replies,
            match r {
                Ok(x) => ask(old(self).rv(), old(self).cursor as nat, op@) == Asked::Answered(
                    x@,
                    final(self).cursor as nat,
                ),
                Err(o) => ask(old(self).rv(), old(self).cursor as nat, op@) == Asked::<
                    StoreReplyV,
                >::Waiting(o@),
            },
    {
        if self.cursor < self.replies.len() {
            let i = self.cursor;
            self.cursor = self.cursor + 1;
            Ok(&self.replies[i])
        } else {
            Err(op)
        }
    }
}

// ---------------------------------------------------------------------------
// The store.
// ---------------------------------------------------------------------------

/// The text `String::from_utf8` gives as its error for `bytes`.
pub uninterp spec fn utf8_error_text(bytes: Seq<u8>) -> Seq<char>;

/// `String::from_utf8`: the text when `bytes` is UTF-8, else the error's
/// message. What the message says is left to std.
#[verifier::external_body]
fn utf8_string(bytes: &[u8]) -> (r: Result<String, String>)
    ensures
        r is Ok <==> vstd::utf8::valid_utf8(bytes@),
        r matches Ok(s) ==> s@ == vstd::utf8::decode_utf8(bytes@),
        r matches Err(e) ==> e@ == utf8_error_text(bytes@),
{
    match String::from_utf8(bytes.to_vec()) {
        Ok(s) => Ok(s),
        Err(e) => Err(e.to_string()),
    }
}

/// The store: whether user storage is configured, and the system skills.
pub struct SkillStore {
    pub storage: bool,
    pub system: Vec<Skill>,
}

pub struct SkillStoreV {
    pub storage: bool,
    pub system: Seq<SkillV>,
}

impl View for SkillStore {
    type V = SkillStoreV;

    open spec fn view(&self) -> SkillStoreV {
        SkillStoreV { storage: self.storage, system: self.system@.map_values(|s: Skill| s@) }
    }
}

pub open spec fn res_unit(r: Result<(), SkillStoreError>) -> Result<(), StoreErrorV> {
    match r {
        Ok(_) => Ok(()),
        Err(e) => Err(e@),
    }
}

pub open spec fn res_text(r: Result<String, SkillStoreError>) -> Result<Seq<char>, StoreErrorV> {
    match r {
        Ok(t) => Ok(t@),
        Err(e) => Err(e@),
    }
}

pub open spec fn res_skill(r: Result<Skill, SkillStoreError>) -> Result<SkillV, StoreErrorV> {
    match r {
        Ok(s) => Ok(s@),
        Err(e) => Err(e@),
    }
}

/// A user skill's directory, relative to the user's tree.
pub open spec fn skill_rel(name: Seq<char>) -> Seq<char> {
    USER_SKILLS_ROOT@ + "/"@ + name
}

/// A user skill's `SKILL.md`, relative to the user's tree.
pub open spec fn manifest_path(name: Seq<char>) -> Seq<char> {
    USER_SKILLS_ROOT@ + "/"@ + name + "/SKILL.md"@
}

/// Where the agent sees a user skill.
pub open spec fn user_home(name: Seq<char>) -> Seq<char> {
    USER_SKILLS_HOME@ + "/"@ + name
}

pub open spec fn not_found(name: Seq<char>) -> StoreErrorV {
    StoreErrorV::NotFound("skill '"@ + name + "' not found"@)
}

/// The first system skill called `name`, from index `i` on.
pub open spec fn system_index_from(system: Seq<SkillV>, name: Seq<char>, i: int) -> Option<int>
    decreases system.len() - i,
{
    if i < 0 || i >= system.len() {
        None
    } else if system[i].manifest.name == name {
        Some(i)
    } else {
        system_index_from(system, name, i + 1)
    }
}

/// The first system skill called `name`.
pub open spec fn system_index(system: Seq<SkillV>, name: Seq<char>) -> Option<int> {
    system_index_from(system, name, 0)
}

/// Creates the user's `skills/` root (a failure is internal).
pub open spec fn s_ensure_root(st: SkillStoreV, rs: Seq<StoreReplyV>, c: nat, owner: u128) -> Asked<
    Result<(), StoreErrorV>,
> {
    if !st.storage {
        Asked::Answered(Err(StoreErrorV::StorageUnavailable), c)
    } else {
        match ask(rs, c, StoreOpV::CreateDir(owner, USER_SKILLS_ROOT@)) {
            Asked::Waiting(o) => Asked::Waiting(o),
            Asked::Answered(r, c2) => Asked::Answered(
                match as_done(r) {
                    Ok(_) => Ok(()),
                    Err(e) => Err(StoreErrorV::Internal(e)),
                },
                c2,
            ),
        }
    }
}

/// The text of a user skill's `SKILL.md`: the directory must list it as a
/// file, and it must be UTF-8.
pub open spec fn s_read_manifest(
    st: SkillStoreV,
    rs: Seq<StoreReplyV>,
    c: nat,
    owner: u128,
    name: Seq<char>,
) -> Asked<Result<Seq<char>, StoreErrorV>> {
    if !st.storage {
        Asked::Answered(Err(StoreErrorV::StorageUnavailable), c)
    } else {
        match ask(rs, c, StoreOpV::List(owner, skill_rel(name))) {
            Asked::Waiting(o) => Asked::Waiting(o),
            Asked::Answered(r, c2) => match as_entries(r) {
                Err(e) => Asked::Answered(
                    Err(
                        if contains_seq(e, "not found"@) {
                            not_found(name)
                        } else {
                            StoreErrorV::Internal(e)
                        },
                    ),
                    c2,
                ),
                Ok(es) => match first_named(es, "SKILL.md"@) {
                    None => Asked::Answered(Err(not_found(name)), c2),
                    Some(true) => Asked::Answered(
                        Err(StoreErrorV::Invalid("SKILL.md must be a file"@)),
                        c2,
                    ),
                    Some(false) => match ask(rs, c2, StoreOpV::ReadBytes(owner, manifest_path(name))) {
                        Asked::Waiting(o) => Asked::Waiting(o),
                        Asked::Answered(r2, c3) => Asked::Answered(
                            match as_bytes(r2) {
                                Err(e) => Err(StoreErrorV::Internal(e)),
                                Ok(b) => if vstd::utf8::valid_utf8(b) {
                                    Ok(vstd::utf8::decode_utf8(b))
                                } else {
                                    Err(
                                        StoreErrorV::Invalid(
                                            "SKILL.md is not valid UTF-8: "@ + utf8_error_text(b),
                                        ),
                                    )
                                },
                            },
                            c3,
                        ),
                    },
                },
            },
        }
    }
}

/// A user skill, parsed from its `SKILL.md`.
pub open spec fn s_load_user(st: SkillStoreV, rs: Seq<StoreReplyV>, c: nat, owner: u128, name: Seq<char>) -> Asked<
    Result<SkillV, StoreErrorV>,
> {
    match s_ensure_root(st, rs, c, owner) {
        Asked::Waiting(o) => Asked::Waiting(o),
        Asked::Answered(Err(e), c2) => Asked::Answered(Err(e), c2),
        Asked::Answered(Ok(_), c2) => match s_read_manifest(st, rs, c2, owner, name) {
            Asked::Waiting(o) => Asked::Waiting(o),
            Asked::Answered(Err(e), c3) => Asked::Answered(Err(e), c3),
            Asked::Answered(Ok(raw), c3) => match ask(
                rs,
                c3,
                StoreOpV::Parse(raw, name, user_home(name)),
            ) {
                Asked::Waiting(o) => Asked::Waiting(o),
                Asked::Answered(r, c4) => Asked::Answered(as_parsed(r), c4),
            },
        },
    }
}

fn outcome_of(r: &StoreReply) -> (o: Result<(), String>)
    ensures
        match (o, as_done(r@)) {
            (Ok(_), Ok(_)) => true,
            (Err(e), Err(f)) => e@ == f,
            _ => false,
        },
{
    match r {
        StoreReply::Done(Ok(())) => Ok(()),
        StoreReply::Done(Err(e)) => Err(e.clone()),
        _ => Err(String::new()),
    }
}

fn skill_of(r: &StoreReply) -> (o: Result<Skill, SkillStoreError>)
    ensures
        res_skill(o) == as_parsed(r@),
{
    match r {
        StoreReply::Parsed(Ok(s)) => Ok(copy_skill(s)),
        StoreReply::Parsed(Err(e)) => Err(copy_error(e)),
        _ => Err(SkillStoreError::Internal(String::new())),
    }
}

fn rendered_of(r: &StoreReply) -> (o: Result<String, SkillStoreError>)
    ensures
        res_text(o) == as_rendered(r@),
{
    match r {
        StoreReply::Rendered(Ok(s)) => Ok(s.clone()),
        StoreReply::Rendered(Err(e)) => Err(copy_error(e)),
        _ => Err(SkillStoreError::Internal(String::new())),
    }
}

fn cat3(a: &str, b: &str, c: &str) -> (r: String)
    ensures
        r@ == a@ + b@ + c@,
{
    let mut m = a.to_owned();
    push_str(&mut m, b);
    push_str(&mut m, c);
    m
}

fn not_found_error(name: &str) -> (e: SkillStoreError)
    ensures
        e@ == not_found(name@),
{
    SkillStoreError::NotFound(cat3("skill '", name, "' not found"))
}

fn first_named_in(es: &Vec<Listed>, name: &str) -> (r: Option<bool>)
    ensures
        r == first_named(listed_views(es@), name@),
{
    let ghost lv = listed_views(es@);
    let target = chars_of(name);
    let mut i: usize = 0;
    assert(lv.skip(0) == lv);
    while i < es.len()
        invariant
            lv == listed_views(es@),
            lv.len() == es@.len(),
            target@ == name@,
            i <= es.len(),
            first_named(lv, name@) == first_named(lv.skip(i as int), name@),
        decreases es.len() - i,
    {
        assert(lv.skip(i as int)[0] == (es@[i as int].name@, es@[i as int].is_dir));
        assert(lv.skip(i as int).drop_first() == lv.skip(i + 1));
        if crate::text::str_is(es[i].name.as_str(), target.as_slice()) {
            return Some(es[i].is_dir);
        }
        i += 1;
    }
    assert(lv.skip(i as int).len() == 0);
    None
}

impl SkillStore {
    /// The index of the first system skill called `name`.
    fn system_index(&self, name: &str) -> (r: Option<usize>)
        ensures
            match r {
                Some(i) => system_index(self@.system, name@) == Some(i as int),
                None => system_index(self@.system, name@) is None,
            },
            r matches Some(i) ==> i < self.system@.len(),
    {
        let ghost sv = self@.system;
        let target = chars_of(name);
        let mut i: usize = 0;
        while i < self.system.len()
            invariant
                sv == self@.system,
                sv.len() == self.system@.len(),
                target@ == name@,
                i <= self.system.len(),
                system_index(sv, name@) == system_index_from(sv, name@, i as int),
            decreases self.system.len() - i,
        {
            assert(sv[i as int] == self.system@[i as int]@);
            if crate::text::str_is(self.system[i].manifest.name.as_str(), target.as_slice()) {
                return Some(i);
            }
            i += 1;
        }
        None
    }

    fn ensure_root(&self, rp: &mut Replay, owner: u128) -> (r: Result<Result<(), SkillStoreError>, StoreOp>)
        ensures
            final(rp).replies == old(rp).replies,
            match r {
                Ok(v) => s_ensure_root(self@, old(rp).rv(), old(rp).cursor as nat, owner) == Asked::Answered(
                    res_unit(v),
                    final(rp).cursor as nat,
                ),
                Err(o) => s_ensure_root(self@, old(rp).rv(), old(rp).cursor as nat, owner) == Asked::<
                    Result<(), StoreErrorV>,
                >::Waiting(o@),
            },
    {
        if !self.storage {
            return Ok(Err(SkillStoreError::StorageUnavailable));
        }
        match rp.ask(StoreOp::CreateDir { owner, path: USER_SKILLS_ROOT.to_owned() }) {
            Err(o) => Err(o),
            Ok(reply) => match outcome_of(reply) {
                Ok(()) => Ok(Ok(())),
                Err(e) => Ok(Err(SkillStoreError::Internal(e))),
            },
        }
    }

    fn read_manifest(&self, rp: &mut Replay, owner: u128, name: &str) -> (r: Result<
        Result<String, SkillStoreError>,
        StoreOp,
    >)
        ensures
            final(rp).replies == old(rp).replies,
            match r {
                Ok(v) => s_read_manifest(self@, old(rp).rv(), old(rp).cursor as nat, owner, name@)
                    == Asked::Answered(res_text(v), final(rp).cursor as nat),
                Err(o) => s_read_manifest(self@, old(rp).rv(), old(rp).cursor as nat, owner, name@)
                    == Asked::<Result<Seq<char>, StoreErrorV>>::Waiting(o@),
            },
    {
        proof {
            reveal_strlit("");
        }
        if !self.storage {
            return Ok(Err(SkillStoreError::StorageUnavailable));
        }
        let reply = match rp.ask(StoreOp::List { owner, path: crate::skills::user_skill_rel(name) }) {
            Err(o) => {
                return Err(o);
            },
            Ok(reply) => reply,
        };
        let es = match reply {
            StoreReply::Entries(Ok(es)) => es,
            StoreReply::Entries(Err(e)) => {
                let ev = chars_of(e.as_str());
                let nf = chars_of("not found");
                return Ok(
                    Err(
                        if contains(ev.as_slice(), nf.as_slice()) {
                            not_found_error(name)
                        } else {
                            SkillStoreError::Internal(e.clone())
                        },
                    ),
                );
            },
            _ => {
                proof {
                    reveal_strlit("not found");
                    reveal_strlit("");
                    assert(!contains_seq(Seq::<char>::empty(), "not found"@));
                }
                return Ok(Err(SkillStoreError::Internal(String::new())));
            },
        };
        match first_named_in(es, "SKILL.md") {
            None => {
                return Ok(Err(not_found_error(name)));
            },
            Some(true) => {
                return Ok(Err(SkillStoreError::Invalid("SKILL.md must be a file".to_owned())));
            },
            Some(false) => {},
        }
        let reply = match rp.ask(StoreOp::ReadBytes { owner, path: crate::skills::user_manifest_path(name) }) {
            Err(o) => {
                return Err(o);
            },
            Ok(reply) => reply,
        };
        match reply {
            StoreReply::Bytes(Ok(b)) => match utf8_string(b.as_slice()) {
                Ok(t) => Ok(Ok(t)),
                Err(m) => {
                    let msg = cat3("SKILL.md is not valid UTF-8: ", m.as_str(), "");
                    assert(msg@ =~= "SKILL.md is not valid UTF-8: "@ + m@);
                    Ok(Err(SkillStoreError::Invalid(msg)))
                },
            },
            StoreReply::Bytes(Err(e)) => Ok(Err(SkillStoreError::Internal(e.clone()))),
            _ => Ok(Err(SkillStoreError::Internal(String::new()))),
        }
    }

    fn load_user(&self, rp: &mut Replay, owner: u128, name: &str) -> (r: Result<
        Result<Skill, SkillStoreError>,
        StoreOp,
    >)
        ensures
            final(rp).replies == old(rp).replies,
            match r {
                Ok(v) => s_load_user(self@, old(rp).rv(), old(rp).cursor as nat, owner, name@)
                    == Asked::Answered(res_skill(v), final(rp).cursor as nat),
                Err(o) => s_load_user(self@, old(rp).rv(), old(rp).cursor as nat, owner, name@)
                    == Asked::<Result<SkillV, StoreErrorV>>::Waiting(o@),
            },
    {
        match self.ensure_root(rp, owner) {
            Err(o) => {
                return Err(o);
            },
            Ok(Err(e)) => {
                return Ok(Err(e));
            },
            Ok(Ok(())) => {},
        }
        let raw = match self.read_manifest(rp, owner, name) {
            Err(o) => {
                return Err(o);
            },
            Ok(Err(e)) => {
                return Ok(Err(e));
            },
            Ok(Ok(raw)) => raw,
        };
        let home = cat3(USER_SKILLS_HOME, "/", name);
        match rp.ask(StoreOp::Parse { raw, name: name.to_owned(), path: home }) {
            Err(o) => Err(o),
            Ok(reply) => Ok(skill_of(reply)),
        }
    }
}

// ---------------------------------------------------------------------------
// Loading, creating, updating and deleting one skill.
// ---------------------------------------------------------------------------

/// A skill by name: a system skill unless it is excluded, else a user skill.
pub open spec fn s_load(
    st: SkillStoreV,
    rs: Seq<StoreReplyV>,
    c: nat,
    owner: u128,
    name: Seq<char>,
    excluded: Seq<Seq<char>>,
) -> Asked<Result<SkillV, StoreErrorV>> {
    if !valid_name(name) {
        Asked::Answered(Err(StoreErrorV::Invalid(name_error(name))), c)
    } else {
        match system_index(st.system, name) {
            Some(i) => if excluded.contains(name) {
                Asked::Answered(Err(not_found(name)), c)
            } else {
                Asked::Answered(Ok(st.system[i]), c)
            },
            None => s_load_user(st, rs, c, owner, name),
        }
    }
}

/// The manifest of a new skill: its name and trimmed description.
pub open spec fn new_manifest(name: Seq<char>, description: Seq<char>) -> SkillManifestV {
    SkillManifestV {
        name,
        description: trim(description),
        license: None,
        compatibility: None,
        metadata: None,
        allowed_tools: None,
    }
}

/// Writes `raw` as the `SKILL.md` of a new directory `name`, then loads it.
pub open spec fn s_write_new_skill(
    st: SkillStoreV,
    rs: Seq<StoreReplyV>,
    c: nat,
    owner: u128,
    name: Seq<char>,
    raw: Seq<char>,
) -> Asked<Result<SkillV, StoreErrorV>> {
    match ask(rs, c, StoreOpV::CreateDir(owner, skill_rel(name))) {
        Asked::Waiting(o) => Asked::Waiting(o),
        Asked::Answered(r, c2) => match as_done(r) {
            Err(e) => Asked::Answered(Err(StoreErrorV::Internal(e)), c2),
            Ok(_) => match ask(rs, c2, StoreOpV::Write(owner, manifest_path(name), raw)) {
                Asked::Waiting(o) => Asked::Waiting(o),
                Asked::Answered(r2, c3) => match as_done(r2) {
                    Err(e) => Asked::Answered(Err(StoreErrorV::Internal(e)), c3),
                    Ok(_) => s_load_user(st, rs, c3, owner, name),
                },
            },
        },
    }
}

/// Creates a user skill: a valid name, no system skill and no directory of
/// that name yet.
pub open spec fn s_create(
    st: SkillStoreV,
    rs: Seq<StoreReplyV>,
    c: nat,
    owner: u128,
    name: Seq<char>,
    description: Seq<char>,
    content: Seq<char>,
) -> Asked<Result<SkillV, StoreErrorV>> {
    if !valid_name(name) {
        Asked::Answered(Err(StoreErrorV::Invalid(name_error(name))), c)
    } else if system_index(st.system, name) is Some {
        Asked::Answered(
            Err(StoreErrorV::Conflict("'"@ + name + "' is a built-in skill and cannot be overwritten"@)),
            c,
        )
    } else {
        match s_ensure_root(st, rs, c, owner) {
            Asked::Waiting(o) => Asked::Waiting(o),
            Asked::Answered(Err(e), c2) => Asked::Answered(Err(e), c2),
            Asked::Answered(Ok(_), c2) => match ask(rs, c2, StoreOpV::List(owner, USER_SKILLS_ROOT@)) {
                Asked::Waiting(o) => Asked::Waiting(o),
                Asked::Answered(r, c3) => match as_entries(r) {
                    Err(e) => Asked::Answered(Err(StoreErrorV::Internal(e)), c3),
                    Ok(es) => if first_named(es, name) is Some {
                        Asked::Answered(
                            Err(
                                StoreErrorV::Conflict(
                                    "a skill directory named '"@ + name + "' already exists"@,
                                ),
                            ),
                            c3,
                        )
                    } else {
                        match ask(
                            rs,
                            c3,
                            StoreOpV::Render(new_manifest(name, description), content),
                        ) {
                            Asked::Waiting(o) => Asked::Waiting(o),
                            Asked::Answered(r2, c4) => match as_rendered(r2) {
                                Err(e) => Asked::Answered(Err(e), c4),
                                Ok(raw) => s_write_new_skill(st, rs, c4, owner, name, raw),
                            },
                        }
                    },
                },
            },
        }
    }
}

/// Updates a user skill's description and body, keeping the rest of its
/// manifest.
pub open spec fn s_update(
    st: SkillStoreV,
    rs: Seq<StoreReplyV>,
    c: nat,
    owner: u128,
    name: Seq<char>,
    description: Seq<char>,
    content: Seq<char>,
) -> Asked<Result<SkillV, StoreErrorV>> {
    if system_index(st.system, name) is Some {
        Asked::Answered(Err(StoreErrorV::Conflict("'"@ + name + "' is reserved by a built-in skill"@)), c)
    } else {
        match s_load_user(st, rs, c, owner, name) {
            Asked::Waiting(o) => Asked::Waiting(o),
            Asked::Answered(Err(e), c2) => Asked::Answered(Err(e), c2),
            Asked::Answered(Ok(existing), c2) => match ask(
                rs,
                c2,
                StoreOpV::Render(
                    SkillManifestV { description: trim(description), ..existing.manifest },
                    content,
                ),
            ) {
                Asked::Waiting(o) => Asked::Waiting(o),
                Asked::Answered(r, c3) => match as_rendered(r) {
                    Err(e) => Asked::Answered(Err(e), c3),
                    Ok(raw) => if !st.storage {
                        Asked::Answered(Err(StoreErrorV::StorageUnavailable), c3)
                    } else {
                        match ask(rs, c3, StoreOpV::Write(owner, manifest_path(name), raw)) {
                            Asked::Waiting(o) => Asked::Waiting(o),
                            Asked::Answered(r2, c4) => match as_done(r2) {
                                Err(e) => Asked::Answered(Err(StoreErrorV::Internal(e)), c4),
                                Ok(_) => s_load_user(st, rs, c4, owner, name),
                            },
                        }
                    },
                },
            },
        }
    }
}

/// Whether some entry of `es` is a directory called `name`.
pub open spec fn has_dir(es: Seq<(Seq<char>, bool)>, name: Seq<char>) -> bool {
    exists|i: int| 0 <= i < es.len() && (#[trigger] es[i]).0 == name && es[i].1
}

/// Deletes a user skill's directory.
pub open spec fn s_delete(st: SkillStoreV, rs: Seq<StoreReplyV>, c: nat, owner: u128, name: Seq<char>) -> Asked<
    Result<(), StoreErrorV>,
> {
    if !valid_directory_name(name) {
        Asked::Answered(
            Err(StoreErrorV::Invalid("skill directory must be one direct child of /home/user/skills"@)),
            c,
        )
    } else {
        match s_ensure_root(st, rs, c, owner) {
            Asked::Waiting(o) => Asked::Waiting(o),
            Asked::Answered(Err(e), c2) => Asked::Answered(Err(e), c2),
            Asked::Answered(Ok(_), c2) => match ask(rs, c2, StoreOpV::List(owner, USER_SKILLS_ROOT@)) {
                Asked::Waiting(o) => Asked::Waiting(o),
                Asked::Answered(r, c3) => match as_entries(r) {
                    Err(e) => Asked::Answered(Err(StoreErrorV::Internal(e)), c3),
                    Ok(es) => if !has_dir(es, name) {
                        Asked::Answered(Err(not_found(name)), c3)
                    } else {
                        match ask(rs, c3, StoreOpV::Delete(owner, skill_rel(name))) {
                            Asked::Waiting(o) => Asked::Waiting(o),
                            Asked::Answered(r2, c4) => Asked::Answered(
                                match as_done(r2) {
                                    Err(_) => Err(not_found(name)),
                                    Ok(_) => Ok(()),
                                },
                                c4,
                            ),
                        }
                    },
                },
            },
        }
    }
}

fn has_dir_in(es: &Vec<Listed>, name: &str) -> (r: bool)
    ensures
        r == has_dir(listed_views(es@), name@),
{
    let ghost lv = listed_views(es@);
    let target = chars_of(name);
    let mut i: usize = 0;
    while i < es.len()
        invariant
            lv == listed_views(es@),
            lv.len() == es@.len(),
            target@ == name@,
            i <= es.len(),
            forall|j: int| 0 <= j < i ==> !((#[trigger] lv[j]).0 == name@ && lv[j].1),
        decreases es.len() - i,
    {
        assert(lv[i as int] == (es@[i as int].name@, es@[i as int].is_dir));
        if es[i].is_dir && crate::text::str_is(es[i].name.as_str(), target.as_slice()) {
            return true;
        }
        i += 1;
    }
    false
}

fn contains_name(v: &[String], name: &str) -> (r: bool)
    ensures
        r == crate::shell::builtins::arg_views(v@).contains(name@),
{
    let ghost av = crate::shell::builtins::arg_views(v@);
    let target = chars_of(name);
    let mut i: usize = 0;
    while i < v.len()
        invariant
            av == crate::shell::builtins::arg_views(v@),
            av.len() == v@.len(),
            target@ == name@,
            i <= v.len(),
            forall|j: int| 0 <= j < i ==> av[j] != name@,
        decreases v.len() - i,
    {
        assert(av[i as int] == v@[i as int]@);
        if crate::text::str_is(v[i].as_str(), target.as_slice()) {
            assert(av[i as int] == name@);
            return true;
        }
        i += 1;
    }
    false
}

impl SkillStore {
    /// A skill by name: a system skill unless `excluded` names it, else a
    /// user skill.
    pub fn load(&self, rp: &mut Replay, owner: u128, name: &str, excluded: &[String]) -> (r: Result<
        Result<Skill, SkillStoreError>,
        StoreOp,
    >)
        ensures
            final(rp).replies == old(rp).replies,
            match r {
                Ok(v) => s_load(
                    self@,
                    old(rp).rv(),
                    old(rp).cursor as nat,
                    owner,
                    name@,
                    crate::shell::builtins::arg_views(excluded@),
                ) == Asked::Answered(res_skill(v), final(rp).cursor as nat),
                Err(o) => s_load(
                    self@,
                    old(rp).rv(),
                    old(rp).cursor as nat,
                    owner,
                    name@,
                    crate::shell::builtins::arg_views(excluded@),
                ) == Asked::<Result<SkillV, StoreErrorV>>::Waiting(o@),
            },
    {
        match validate_name(name) {
            Err(e) => {
                return Ok(Err(e));
            },
            Ok(()) => {},
        }
        match self.system_index(name) {
            Some(i) => {
                assert(self@.system[i as int] == self.system@[i as int]@);
                if contains_name(excluded, name) {
                    Ok(Err(not_found_error(name)))
                } else {
                    Ok(Ok(copy_skill(&self.system[i])))
                }
            },
            None => self.load_user(rp, owner, name),
        }
    }

    fn write_new_skill(&self, rp: &mut Replay, owner: u128, name: &str, raw: String) -> (r: Result<
        Result<Skill, SkillStoreError>,
        StoreOp,
    >)
        ensures
            final(rp).replies == old(rp).replies,
            match r {
                Ok(v) => s_write_new_skill(self@, old(rp).rv(), old(rp).cursor as nat, owner, name@, raw@)
                    == Asked::Answered(res_skill(v), final(rp).cursor as nat),
                Err(o) => s_write_new_skill(self@, old(rp).rv(), old(rp).cursor as nat, owner, name@, raw@)
                    == Asked::<Result<SkillV, StoreErrorV>>::Waiting(o@),
            },
    {
        match rp.ask(StoreOp::CreateDir { owner, path: crate::skills::user_skill_rel(name) }) {
            Err(o) => {
                return Err(o);
            },
            Ok(reply) => match outcome_of(reply) {
                Err(e) => {
                    return Ok(Err(SkillStoreError::Internal(e)));
                },
                Ok(()) => {},
            },
        }
        match rp.ask(
            StoreOp::Write { owner, path: crate::skills::user_manifest_path(name), content: raw },
        ) {
            Err(o) => {
                return Err(o);
            },
            Ok(reply) => match outcome_of(reply) {
                Err(e) => {
                    return Ok(Err(SkillStoreError::Internal(e)));
                },
                Ok(()) => {},
            },
        }
        self.load_user(rp, owner, name)
    }

    /// Creates a user skill with the given description and body.
    pub fn create(
        &self,
        rp: &mut Replay,
        owner: u128,
        name: &str,
        description: &str,
        content: &str,
    ) -> (r: Result<Result<Skill, SkillStoreError>, StoreOp>)
        ensures
            final(rp).replies == old(rp).replies,
            match r {
                Ok(v) => s_create(
                    self@,
                    old(rp).rv(),
                    old(rp).cursor as nat,
                    owner,
                    name@,
                    description@,
                    content@,
                ) == Asked::Answered(res_skill(v), final(rp).cursor as nat),
                Err(o) => s_create(
                    self@,
                    old(rp).rv(),
                    old(rp).cursor as nat,
                    owner,
                    name@,
                    description@,
                    content@,
                ) == Asked::<Result<SkillV, StoreErrorV>>::Waiting(o@),
            },
    {
        match validate_name(name) {
            Err(e) => {
                return Ok(Err(e));
            },
            Ok(()) => {},
        }
        if self.system_index(name).is_some() {
            return Ok(
                Err(
                    SkillStoreError::Conflict(
                        cat3("'", name, "' is a built-in skill and cannot be overwritten"),
                    ),
                ),
            );
        }
        match self.ensure_root(rp, owner) {
            Err(o) => {
                return Err(o);
            },
            Ok(Err(e)) => {
                return Ok(Err(e));
            },
            Ok(Ok(())) => {},
        }
        let reply = match rp.ask(StoreOp::List { owner, path: USER_SKILLS_ROOT.to_owned() }) {
            Err(o) => {
                return Err(o);
            },
            Ok(reply) => reply,
        };
        let es = match reply {
            StoreReply::Entries(Ok(es)) => es,
            StoreReply::Entries(Err(e)) => {
                return Ok(Err(SkillStoreError::Internal(e.clone())));
            },
            _ => {
                return Ok(Err(SkillStoreError::Internal(String::new())));
            },
        };
        if first_named_in(es, name).is_some() {
            return Ok(
                Err(SkillStoreError::Conflict(cat3("a skill directory named '", name, "' already exists"))),
            );
        }
        let manifest = SkillManifest {
            name: name.to_owned(),
            description: crate::text::string_of(
                crate::text::trimmed(chars_of(description).as_slice(), crate::text::Strip::Whitespace).as_slice(),
            ),
            license: None,
            compatibility: None,
            metadata: None,
            allowed_tools: None,
        };
        let raw = match rp.ask(StoreOp::Render { manifest, content: content.to_owned() }) {
            Err(o) => {
                return Err(o);
            },
            Ok(reply) => match rendered_of(reply) {
                Err(e) => {
                    return Ok(Err(e));
                },
                Ok(raw) => raw,
            },
        };
        self.write_new_skill(rp, owner, name, raw)
    }

    /// Replaces a user skill's description and body.
    pub fn update(
        &self,
        rp: &mut Replay,
        owner: u128,
        name: &str,
        description: &str,
        content: &str,
    ) -> (r: Result<Result<Skill, SkillStoreError>, StoreOp>)
        ensures
            final(rp).replies == old(rp).replies,
            match r {
                Ok(v) => s_update(
                    self@,
                    old(rp).rv(),
                    old(rp).cursor as nat,
                    owner,
                    name@,
                    description@,
                    content@,
                ) == Asked::Answered(res_skill(v), final(rp).cursor as nat),
                Err(o) => s_update(
                    self@,
                    old(rp).rv(),
                    old(rp).cursor as nat,
                    owner,
                    name@,
                    description@,
                    content@,
                ) == Asked::<Result<SkillV, StoreErrorV>>::Waiting(o@),
            },
    {
        if self.system_index(name).is_some() {
            return Ok(Err(SkillStoreError::Conflict(cat3("'", name, "' is reserved by a built-in skill"))));
        }
        let existing = match self.load_user(rp, owner, name) {
            Err(o) => {
                return Err(o);
            },
            Ok(Err(e)) => {
                return Ok(Err(e));
            },
            Ok(Ok(s)) => s,
        };
        let mut manifest = existing.manifest;
        manifest.description = crate::text::string_of(
            crate::text::trimmed(chars_of(description).as_slice(), crate::text::Strip::Whitespace).as_slice(),
        );
        let raw = match rp.ask(StoreOp::Render { manifest, content: content.to_owned() }) {
            Err(o) => {
                return Err(o);
            },
            Ok(reply) => match rendered_of(reply) {
                Err(e) => {
                    return Ok(Err(e));
                },
                Ok(raw) => raw,
            },
        };
        if !self.storage {
            return Ok(Err(SkillStoreError::StorageUnavailable));
        }
        match rp.ask(
            StoreOp::Write { owner, path: crate::skills::user_manifest_path(name), content: raw },
        ) {
            Err(o) => {
                return Err(o);
            },
            Ok(reply) => match outcome_of(reply) {
                Err(e) => {
                    return Ok(Err(SkillStoreError::Internal(e)));
                },
                Ok(()) => {},
            },
        }
        self.load_user(rp, owner, name)
    }

    /// Deletes a user skill's directory.
    pub fn delete(&self, rp: &mut Replay, owner: u128, name: &str) -> (r: Result<
        Result<(), SkillStoreError>,
        StoreOp,
    >)
        ensures
            final(rp).replies == old(rp).replies,
            match r {
                Ok(v) => s_delete(self@, old(rp).rv(), old(rp).cursor as nat, owner, name@) == Asked::Answered(
                    res_unit(v),
                    final(rp).cursor as nat,
                ),
                Err(o) => s_delete(self@, old(rp).rv(), old(rp).cursor as nat, owner, name@) == Asked::<
                    Result<(), StoreErrorV>,
                >::Waiting(o@),
            },
    {
        match validate_directory_name(name) {
            Err(e) => {
                return Ok(Err(e));
            },
            Ok(()) => {},
        }
        match self.ensure_root(rp, owner) {
            Err(o) => {
                return Err(o);
            },
            Ok(Err(e)) => {
                return Ok(Err(e));
            },
            Ok(Ok(())) => {},
        }
        let reply = match rp.ask(StoreOp::List { owner, path: USER_SKILLS_ROOT.to_owned() }) {
            Err(o) => {
                return Err(o);
            },
            Ok(reply) => reply,
        };
        let es = match reply {
            StoreReply::Entries(Ok(es)) => es,
            StoreReply::Entries(Err(e)) => {
                return Ok(Err(SkillStoreError::Internal(e.clone())));
            },
            _ => {
                return Ok(Err(SkillStoreError::Internal(String::new())));
            },
        };
        if !has_dir_in(es, name) {
            return Ok(Err(not_found_error(name)));
        }
        match rp.ask(StoreOp::Delete { owner, path: crate::skills::user_skill_rel(name) }) {
            Err(o) => Err(o),
            Ok(reply) => match outcome_of(reply) {
                Err(_) => Ok(Err(not_found_error(name))),
                Ok(()) => Ok(Ok(())),
            },
        }
    }
}

// ---------------------------------------------------------------------------
// Listing user skills.
// ---------------------------------------------------------------------------

/// How a user skill directory `name` shows in the listing, from what
/// loading it gave; a failure other than a missing or invalid `SKILL.md`
/// fails the listing.
pub open spec fn classify(st: SkillStoreV, name: Seq<char>, loaded: Result<SkillV, StoreErrorV>) -> Result<
    UserSkillViewV,
    StoreErrorV,
> {
    let path = user_home(name);
    match loaded {
        Ok(skill) => if system_index(st.system, name) is Some {
            Ok(
                UserSkillViewV {
                    name,
                    description: skill.manifest.description,
                    content: skill.content,
                    path,
                    valid: false,
                    error: Some("a built-in skill already uses this name"@),
                },
            )
        } else {
            Ok(
                UserSkillViewV {
                    name: skill.manifest.name,
                    description: skill.manifest.description,
                    content: skill.content,
                    path,
                    valid: true,
                    error: None,
                },
            )
        },
        Err(StoreErrorV::NotFound(_)) => Ok(
            UserSkillViewV {
                name,
                description: Seq::empty(),
                content: Seq::empty(),
                path,
                valid: false,
                error: Some("missing SKILL.md"@),
            },
        ),
        Err(StoreErrorV::Invalid(m)) => Ok(
            UserSkillViewV {
                name,
                description: Seq::empty(),
                content: Seq::empty(),
                path,
                valid: false,
                error: Some(m),
            },
        ),
        Err(e) => Err(e),
    }
}

/// The views of the directories among `es[i..]`, after `acc`.
pub open spec fn s_views_from(
    st: SkillStoreV,
    rs: Seq<StoreReplyV>,
    c: nat,
    owner: u128,
    es: Seq<(Seq<char>, bool)>,
    i: int,
    acc: Seq<UserSkillViewV>,
) -> Asked<Result<Seq<UserSkillViewV>, StoreErrorV>>
    decreases es.len() - i,
{
    if i < 0 || i >= es.len() {
        Asked::Answered(Ok(acc), c)
    } else if !es[i].1 {
        s_views_from(st, rs, c, owner, es, i + 1, acc)
    } else {
        match s_load_user(st, rs, c, owner, es[i].0) {
            Asked::Waiting(o) => Asked::Waiting(o),
            Asked::Answered(l, c2) => match classify(st, es[i].0, l) {
                Err(e) => Asked::Answered(Err(e), c2),
                Ok(v) => s_views_from(st, rs, c2, owner, es, i + 1, acc.push(v)),
            },
        }
    }
}

pub open spec fn view_name(v: UserSkillViewV) -> Seq<char> {
    v.name
}

/// Every directory under the user's `skills/` as a view, valid or with
/// what is wrong with it, in name order.
pub open spec fn s_user_views(st: SkillStoreV, rs: Seq<StoreReplyV>, c: nat, owner: u128) -> Asked<
    Result<Seq<UserSkillViewV>, StoreErrorV>,
> {
    match s_ensure_root(st, rs, c, owner) {
        Asked::Waiting(o) => Asked::Waiting(o),
        Asked::Answered(Err(e), c2) => Asked::Answered(Err(e), c2),
        Asked::Answered(Ok(_), c2) => match ask(rs, c2, StoreOpV::List(owner, USER_SKILLS_ROOT@)) {
            Asked::Waiting(o) => Asked::Waiting(o),
            Asked::Answered(r, c3) => match as_entries(r) {
                Err(e) => Asked::Answered(Err(StoreErrorV::Internal(e)), c3),
                Ok(es) => match s_views_from(st, rs, c3, owner, es, 0, Seq::empty()) {
                    Asked::Waiting(o) => Asked::Waiting(o),
                    Asked::Answered(Err(e), c4) => Asked::Answered(Err(e), c4),
                    Asked::Answered(Ok(vs), c4) => Asked::Answered(
                        Ok(sort_by(vs, |v: UserSkillViewV| view_name(v))),
                        c4,
                    ),
                },
            },
        },
    }
}

pub open spec fn views_of(v: Seq<UserSkillView>) -> Seq<UserSkillViewV> {
    v.map_values(|x: UserSkillView| x@)
}

pub open spec fn res_views(r: Result<Vec<UserSkillView>, SkillStoreError>) -> Result<
    Seq<UserSkillViewV>,
    StoreErrorV,
> {
    match r {
        Ok(v) => Ok(views_of(v@)),
        Err(e) => Err(e@),
    }
}

impl SkillStore {
    fn classify(&self, name: &String, loaded: Result<Skill, SkillStoreError>) -> (r: Result<
        UserSkillView,
        SkillStoreError,
    >)
        ensures
            match r {
                Ok(v) => classify(self@, name@, res_skill(loaded)) == Ok::<UserSkillViewV, StoreErrorV>(v@),
                Err(e) => classify(self@, name@, res_skill(loaded)) == Err::<UserSkillViewV, StoreErrorV>(e@),
            },
    {
        let path = cat3(USER_SKILLS_HOME, "/", name.as_str());
        match loaded {
            Ok(skill) => {
                if self.system_index(name.as_str()).is_some() {
                    Ok(
                        UserSkillView {
                            name: name.clone(),
                            description: skill.manifest.description,
                            content: skill.content,
                            path,
                            valid: false,
                            error: Some("a built-in skill already uses this name".to_owned()),
                        },
                    )
                } else {
                    Ok(
                        UserSkillView {
                            name: skill.manifest.name,
                            description: skill.manifest.description,
                            content: skill.content,
                            path,
                            valid: true,
                            error: None,
                        },
                    )
                }
            },
            Err(SkillStoreError::NotFound(_)) => Ok(
                UserSkillView {
                    name: name.clone(),
                    description: String::new(),
                    content: String::new(),
                    path,
                    valid: false,
                    error: Some("missing SKILL.md".to_owned()),
                },
            ),
            Err(SkillStoreError::Invalid(m)) => Ok(
                UserSkillView {
                    name: name.clone(),
                    description: String::new(),
                    content: String::new(),
                    path,
                    valid: false,
                    error: Some(m),
                },
            ),
            Err(e) => Err(e),
        }
    }

    fn views_from(&self, rp: &mut Replay, owner: u128, es: &Vec<Listed>) -> (r: Result<
        Result<Vec<UserSkillView>, SkillStoreError>,
        StoreOp,
    >)
        ensures
            final(rp).replies == old(rp).replies,
            match r {
                Ok(v) => s_views_from(
                    self@,
                    old(rp).rv(),
                    old(rp).cursor as nat,
                    owner,
                    listed_views(es@),
                    0,
                    Seq::empty(),
                ) == Asked::Answered(res_views(v), final(rp).cursor as nat),
                Err(o) => s_views_from(
                    self@,
                    old(rp).rv(),
                    old(rp).cursor as nat,
                    owner,
                    listed_views(es@),
                    0,
                    Seq::empty(),
                ) == Asked::<Result<Seq<UserSkillViewV>, StoreErrorV>>::Waiting(o@),
            },
    {
        let ghost lv = listed_views(es@);
        let ghost st = self@;
        let ghost rv = rp.rv();
        let ghost c0 = rp.cursor as nat;
        let mut views: Vec<UserSkillView> = Vec::new();
        assert(views_of(views@) =~= Seq::<UserSkillViewV>::empty());
        let mut i: usize = 0;
        while i < es.len()
            invariant
                lv == listed_views(es@),
                lv.len() == es@.len(),
                st == self@,
                rv == rp.rv(),
                rp.replies == old(rp).replies,
                c0 == old(rp).cursor as nat,
                i <= es.len(),
                s_views_from(st, rv, c0, owner, lv, 0, Seq::empty()) == s_views_from(
                    st,
                    rv,
                    rp.cursor as nat,
                    owner,
                    lv,
                    i as int,
                    views_of(views@),
                ),
            decreases es.len() - i,
        {
            assert(lv[i as int] == (es@[i as int].name@, es@[i as int].is_dir));
            if es[i].is_dir {
                let loaded = match self.load_user(rp, owner, es[i].name.as_str()) {
                    Err(o) => {
                        return Err(o);
                    },
                    Ok(l) => l,
                };
                match self.classify(&es[i].name, loaded) {
                    Err(e) => {
                        return Ok(Err(e));
                    },
                    Ok(v) => {
                        let ghost before = views_of(views@);
                        views.push(v);
                        assert(views_of(views@) =~= before.push(v@));
                    },
                }
            }
            i += 1;
        }
        Ok(Ok(views))
    }

    /// Every directory under the user's `skills/`: a view of each, valid or
    /// with what is wrong with it, in name order.
    pub fn user_views(&self, rp: &mut Replay, owner: u128) -> (r: Result<
        Result<Vec<UserSkillView>, SkillStoreError>,
        StoreOp,
    >)
        ensures
            final(rp).replies == old(rp).replies,
            match r {
                Ok(v) => s_user_views(self@, old(rp).rv(), old(rp).cursor as nat, owner) == Asked::Answered(
                    res_views(v),
                    final(rp).cursor as nat,
                ),
                Err(o) => s_user_views(self@, old(rp).rv(), old(rp).cursor as nat, owner) == Asked::<
                    Result<Seq<UserSkillViewV>, StoreErrorV>,
                >::Waiting(o@),
            },
    {
        match self.ensure_root(rp, owner) {
            Err(o) => {
                return Err(o);
            },
            Ok(Err(e)) => {
                return Ok(Err(e));
            },
            Ok(Ok(())) => {},
        }
        let reply = match rp.ask(StoreOp::List { owner, path: USER_SKILLS_ROOT.to_owned() }) {
            Err(o) => {
                return Err(o);
            },
            Ok(reply) => reply,
        };
        let es = match reply {
            StoreReply::Entries(Ok(es)) => es,
            StoreReply::Entries(Err(e)) => {
                return Ok(Err(SkillStoreError::Internal(e.clone())));
            },
            _ => {
                return Ok(Err(SkillStoreError::Internal(String::new())));
            },
        };
        let views = match self.views_from(rp, owner, es) {
            Err(o) => {
                return Err(o);
            },
            Ok(Err(e)) => {
                return Ok(Err(e));
            },
            Ok(Ok(v)) => v,
        };
        let ghost unsorted = views@;
        let sorted = crate::sorting::sort_by_name(views);
        proof {
            crate::sorting::lemma_sort_views(
                unsorted,
                |x: UserSkillView| x@,
                |v: UserSkillViewV| view_name(v),
            );
            assert(views_of(sorted@) == crate::sorting::sort_by_key(unsorted).map_values(
                |x: UserSkillView| x@,
            ));
        }
        Ok(Ok(sorted))
    }
}

// ---------------------------------------------------------------------------
// The skills an agent may use.
// ---------------------------------------------------------------------------

/// The system skills whose names `excluded` does not hold, in order.
pub open spec fn without_excluded(system: Seq<SkillV>, excluded: Seq<Seq<char>>) -> Seq<SkillV>
    decreases system.len(),
{
    if system.len() == 0 {
        Seq::empty()
    } else if excluded.contains(system.last().manifest.name) {
        without_excluded(system.drop_last(), excluded)
    } else {
        without_excluded(system.drop_last(), excluded).push(system.last())
    }
}

/// Adds to `acc` each valid user skill of `vs[i..]` that no system skill
/// shadows, loaded again.
pub open spec fn s_add_user_from(
    st: SkillStoreV,
    rs: Seq<StoreReplyV>,
    c: nat,
    owner: u128,
    vs: Seq<UserSkillViewV>,
    i: int,
    acc: Seq<SkillV>,
) -> Asked<Result<Seq<SkillV>, StoreErrorV>>
    decreases vs.len() - i,
{
    if i < 0 || i >= vs.len() {
        Asked::Answered(Ok(acc), c)
    } else if vs[i].valid && system_index(st.system, vs[i].name) is None {
        match s_load_user(st, rs, c, owner, vs[i].name) {
            Asked::Waiting(o) => Asked::Waiting(o),
            Asked::Answered(Err(e), c2) => Asked::Answered(Err(e), c2),
            Asked::Answered(Ok(sk), c2) => s_add_user_from(st, rs, c2, owner, vs, i + 1, acc.push(sk)),
        }
    } else {
        s_add_user_from(st, rs, c, owner, vs, i + 1, acc)
    }
}

pub open spec fn skill_name(s: SkillV) -> Seq<char> {
    s.manifest.name
}

/// The skills an agent may use: the system skills not excluded and the
/// valid user skills, in name order.
pub open spec fn s_available(
    st: SkillStoreV,
    rs: Seq<StoreReplyV>,
    c: nat,
    owner: u128,
    excluded: Seq<Seq<char>>,
) -> Asked<Result<Seq<SkillV>, StoreErrorV>> {
    let base = without_excluded(st.system, excluded);
    if !st.storage {
        Asked::Answered(Ok(sort_by(base, |s: SkillV| skill_name(s))), c)
    } else {
        match s_user_views(st, rs, c, owner) {
            Asked::Waiting(o) => Asked::Waiting(o),
            Asked::Answered(Err(e), c2) => Asked::Answered(Err(e), c2),
            Asked::Answered(Ok(vs), c2) => match s_add_user_from(st, rs, c2, owner, vs, 0, base) {
                Asked::Waiting(o) => Asked::Waiting(o),
                Asked::Answered(Err(e), c3) => Asked::Answered(Err(e), c3),
                Asked::Answered(Ok(all), c3) => Asked::Answered(
                    Ok(sort_by(all, |s: SkillV| skill_name(s))),
                    c3,
                ),
            },
        }
    }
}

pub open spec fn skills_of(v: Seq<Skill>) -> Seq<SkillV> {
    v.map_values(|x: Skill| x@)
}

pub open spec fn res_skills(r: Result<Vec<Skill>, SkillStoreError>) -> Result<Seq<SkillV>, StoreErrorV> {
    match r {
        Ok(v) => Ok(skills_of(v@)),
        Err(e) => Err(e@),
    }
}

impl SkillStore {
    fn base_skills(&self, excluded: &[String]) -> (r: Vec<Skill>)
        ensures
            skills_of(r@) == without_excluded(self@.system, crate::shell::builtins::arg_views(excluded@)),
    {
        let ghost sv = self@.system;
        let ghost ev = crate::shell::builtins::arg_views(excluded@);
        let mut out: Vec<Skill> = Vec::new();
        let mut i: usize = 0;
        assert(skills_of(out@) =~= without_excluded(sv.take(0), ev));
        while i < self.system.len()
            invariant
                sv == self@.system,
                sv.len() == self.system@.len(),
                ev == crate::shell::builtins::arg_views(excluded@),
                i <= self.system.len(),
                skills_of(out@) == without_excluded(sv.take(i as int), ev),
            decreases self.system.len() - i,
        {
            assert(sv.take(i + 1).drop_last() == sv.take(i as int));
            assert(sv.take(i + 1).last() == self.system@[i as int]@);
            if !contains_name(excluded, self.system[i].manifest.name.as_str()) {
                let ghost before = skills_of(out@);
                out.push(copy_skill(&self.system[i]));
                assert(skills_of(out@) =~= before.push(self.system@[i as int]@));
            }
            i += 1;
        }
        assert(sv.take(i as int) == sv);
        out
    }

    fn add_user_skills(
        &self,
        rp: &mut Replay,
        owner: u128,
        vs: &Vec<UserSkillView>,
        base: Vec<Skill>,
    ) -> (r: Result<Result<Vec<Skill>, SkillStoreError>, StoreOp>)
        ensures
            final(rp).replies == old(rp).replies,
            match r {
                Ok(v) => s_add_user_from(
                    self@,
                    old(rp).rv(),
                    old(rp).cursor as nat,
                    owner,
                    views_of(vs@),
                    0,
                    skills_of(base@),
                ) == Asked::Answered(res_skills(v), final(rp).cursor as nat),
                Err(o) => s_add_user_from(
                    self@,
                    old(rp).rv(),
                    old(rp).cursor as nat,
                    owner,
                    views_of(vs@),
                    0,
                    skills_of(base@),
                ) == Asked::<Result<Seq<SkillV>, StoreErrorV>>::Waiting(o@),
            },
    {
        let ghost vv = views_of(vs@);
        let ghost st = self@;
        let ghost rv = rp.rv();
        let ghost c0 = rp.cursor as nat;
        let ghost b0 = skills_of(base@);
        let mut acc = base;
        let mut i: usize = 0;
        while i < vs.len()
            invariant
                vv == views_of(vs@),
                vv.len() == vs@.len(),
                st == self@,
                rv == rp.rv(),
                rp.replies == old(rp).replies,
                c0 == old(rp).cursor as nat,
                b0 == skills_of(base@),
                i <= vs.len(),
                s_add_user_from(st, rv, c0, owner, vv, 0, b0) == s_add_user_from(
                    st,
                    rv,
                    rp.cursor as nat,
                    owner,
                    vv,
                    i as int,
                    skills_of(acc@),
                ),
            decreases vs.len() - i,
        {
            assert(vv[i as int] == vs@[i as int]@);
            if vs[i].valid && self.system_index(vs[i].name.as_str()).is_none() {
                match self.load_user(rp, owner, vs[i].name.as_str()) {
                    Err(o) => {
                        return Err(o);
                    },
                    Ok(Err(e)) => {
                        return Ok(Err(e));
                    },
                    Ok(Ok(sk)) => {
                        let ghost before = skills_of(acc@);
                        acc.push(sk);
                        assert(skills_of(acc@) =~= before.push(sk@));
                    },
                }
            }
            i += 1;
        }
        Ok(Ok(acc))
    }

    fn sorted_skills(v: Vec<Skill>) -> (r: Vec<Skill>)
        ensures
            skills_of(r@) == sort_by(skills_of(v@), |s: SkillV| skill_name(s)),
    {
        let ghost orig = v@;
        let r = crate::sorting::sort_by_name(v);
        proof {
            crate::sorting::lemma_sort_views(orig, |x: Skill| x@, |s: SkillV| skill_name(s));
        }
        r
    }

    /// The skills an agent may use: the system skills `excluded` does not
    /// name and the valid user skills no system skill shadows, in name order.
    pub fn available(&self, rp: &mut Replay, owner: u128, excluded: &[String]) -> (r: Result<
        Result<Vec<Skill>, SkillStoreError>,
        StoreOp,
    >)
        ensures
            final(rp).replies == old(rp).replies,
            match r {
                Ok(v) => s_available(
                    self@,
                    old(rp).rv(),
                    old(rp).cursor as nat,
                    owner,
                    crate::shell::builtins::arg_views(excluded@),
                ) == Asked::Answered(res_skills(v), final(rp).cursor as nat),
                Err(o) => s_available(
                    self@,
                    old(rp).rv(),
                    old(rp).cursor as nat,
                    owner,
                    crate::shell::builtins::arg_views(excluded@),
                ) == Asked::<Result<Seq<SkillV>, StoreErrorV>>::Waiting(o@),
            },
    {
        let base = self.base_skills(excluded);
        if !self.storage {
            return Ok(Ok(SkillStore::sorted_skills(base)));
        }
        let vs = match self.user_views(rp, owner) {
            Err(o) => {
                return Err(o);
            },
            Ok(Err(e)) => {
                return Ok(Err(e));
            },
            Ok(Ok(vs)) => vs,
        };
        match self.add_user_skills(rp, owner, &vs, base) {
            Err(o) => Err(o),
            Ok(Err(e)) => Ok(Err(e)),
            Ok(Ok(all)) => Ok(Ok(SkillStore::sorted_skills(all))),
        }
    }
}

// ---------------------------------------------------------------------------
// Migrating the legacy skills table.
// ---------------------------------------------------------------------------

/// A skill row of the old database table.
#[derive(Clone, Debug)]
pub struct LegacyRow {
    pub id: u128,
    pub owner: Option<u128>,
    pub name: String,
    pub description: String,
    pub content: String,
}

pub struct LegacyRowV {
    pub id: u128,
    pub owner: Option<u128>,
    pub name: Seq<char>,
    pub description: Seq<char>,
    pub content: Seq<char>,
}

impl View for LegacyRow {
    type V = LegacyRowV;

    open spec fn view(&self) -> LegacyRowV {
        LegacyRowV {
            id: self.id,
            owner: self.owner,
            name: self.name@,
            description: self.description@,
            content: self.content@,
        }
    }
}

pub open spec fn rows_of(v: Seq<LegacyRow>) -> Seq<LegacyRowV> {
    v.map_values(|r: LegacyRow| r@)
}

/// A lowercase hexadecimal digit.
pub open spec fn hex_digit(n: int) -> char {
    if n < 10 {
        (48 + n) as char
    } else {
        (87 + n) as char
    }
}

/// The 32 lowercase hexadecimal digits of `id`, most significant first.
pub open spec fn simple_text(id: u128) -> Seq<char> {
    Seq::new(32, |i: int| hex_digit((id as int / vstd::arithmetic::power::pow(16, (31 - i) as nat)) % 16))
}

/// `Uuid::from_u128(id).as_simple()`, displayed: the 32 lowercase
/// hexadecimal digits of `id`'s big-endian bytes.
#[verifier::external_body]
fn uuid_simple(id: u128) -> (r: String)
    ensures
        r@ == simple_text(id),
{
    uuid::Uuid::from_u128(id).as_simple().to_string()
}

/// The first row from `i` on that has no owner.
pub open spec fn ownerless_from(rows: Seq<LegacyRowV>, i: int) -> Option<int>
    decreases rows.len() - i,
{
    if i < 0 || i >= rows.len() {
        None
    } else if rows[i].owner is None {
        Some(i)
    } else {
        ownerless_from(rows, i + 1)
    }
}

/// The manifest a legacy row becomes.
pub open spec fn legacy_manifest(row: LegacyRowV) -> SkillManifestV {
    SkillManifestV {
        name: row.name,
        description: row.description,
        license: None,
        compatibility: None,
        metadata: None,
        allowed_tools: None,
    }
}

/// Where a row that cannot be installed is kept: under
/// `skill-migration-conflicts/`, by its id and (when valid) its name.
pub open spec fn backup_dir(id: u128, name: Seq<char>) -> Seq<char> {
    "skill-migration-conflicts/"@ + simple_text(id) + if valid_name(name) {
        "-"@ + name
    } else {
        Seq::empty()
    }
}

/// Keeps `content` as a backup of row `id`.
pub open spec fn s_back_up(
    rs: Seq<StoreReplyV>,
    c: nat,
    owner: u128,
    id: u128,
    name: Seq<char>,
    content: Seq<char>,
) -> Asked<Result<(), StoreErrorV>> {
    let dir = backup_dir(id, name);
    match ask(rs, c, StoreOpV::CreateDir(owner, dir)) {
        Asked::Waiting(o) => Asked::Waiting(o),
        Asked::Answered(r, c2) => match as_done(r) {
            Err(e) => Asked::Answered(Err(StoreErrorV::Internal(e)), c2),
            Ok(_) => match ask(rs, c2, StoreOpV::Write(owner, dir + "/SKILL.md"@, content)) {
                Asked::Waiting(o) => Asked::Waiting(o),
                Asked::Answered(r2, c3) => Asked::Answered(
                    match as_done(r2) {
                        Err(e) => Err(StoreErrorV::Internal(e)),
                        Ok(_) => Ok(()),
                    },
                    c3,
                ),
            },
        },
    }
}

/// Installs `raw` as the `SKILL.md` of a new directory `name`.
pub open spec fn s_install(rs: Seq<StoreReplyV>, c: nat, owner: u128, name: Seq<char>, raw: Seq<char>) -> Asked<
    Result<(), StoreErrorV>,
> {
    match ask(rs, c, StoreOpV::CreateDir(owner, skill_rel(name))) {
        Asked::Waiting(o) => Asked::Waiting(o),
        Asked::Answered(r, c2) => match as_done(r) {
            Err(e) => Asked::Answered(Err(StoreErrorV::Internal(e)), c2),
            Ok(_) => match ask(rs, c2, StoreOpV::Write(owner, manifest_path(name), raw)) {
                Asked::Waiting(o) => Asked::Waiting(o),
                Asked::Answered(r2, c3) => Asked::Answered(
                    match as_done(r2) {
                        Err(e) => Err(StoreErrorV::Internal(e)),
                        Ok(_) => Ok(()),
                    },
                    c3,
                ),
            },
        },
    }
}

/// After `step` succeeds, deletes the legacy row `id`.
pub open spec fn s_then_drop(step: Asked<Result<(), StoreErrorV>>, rs: Seq<StoreReplyV>, id: u128) -> Asked<
    Result<(), StoreErrorV>,
> {
    match step {
        Asked::Waiting(o) => Asked::Waiting(o),
        Asked::Answered(Err(e), c) => Asked::Answered(Err(e), c),
        Asked::Answered(Ok(_), c) => match ask(rs, c, StoreOpV::DeleteLegacy(id)) {
            Asked::Waiting(o) => Asked::Waiting(o),
            Asked::Answered(r, c2) => Asked::Answered(
                match as_done(r) {
                    Err(e) => Err(StoreErrorV::Internal(e)),
                    Ok(_) => Ok(()),
                },
                c2,
            ),
        },
    }
}

/// Migrates one row: a row that cannot be rendered, or whose name a system
/// skill holds, is backed up; otherwise it is installed unless a bundle of
/// that name exists (kept as is, the row backed up when it differs). Then
/// the row is deleted.
pub open spec fn s_migrate_row(st: SkillStoreV, rs: Seq<StoreReplyV>, c: nat, row: LegacyRowV) -> Asked<
    Result<(), StoreErrorV>,
> {
    let owner = match row.owner {
        Some(o) => o,
        None => 0,
    };
    match s_ensure_root(st, rs, c, owner) {
        Asked::Waiting(o) => Asked::Waiting(o),
        Asked::Answered(Err(e), c2) => Asked::Answered(Err(e), c2),
        Asked::Answered(Ok(_), c2) => match ask(
            rs,
            c2,
            StoreOpV::Render(legacy_manifest(row), row.content),
        ) {
            Asked::Waiting(o) => Asked::Waiting(o),
            Asked::Answered(r, c3) => match as_rendered(r) {
                Err(_) => match ask(rs, c3, StoreOpV::RenderBackup(legacy_manifest(row), row.content)) {
                    Asked::Waiting(o) => Asked::Waiting(o),
                    Asked::Answered(r2, c4) => match as_rendered(r2) {
                        Err(e) => Asked::Answered(Err(e), c4),
                        Ok(raw) => s_then_drop(s_back_up(rs, c4, owner, row.id, row.name, raw), rs, row.id),
                    },
                },
                Ok(raw) => if system_index(st.system, row.name) is Some {
                    s_then_drop(s_back_up(rs, c3, owner, row.id, row.name, raw), rs, row.id)
                } else {
                    match ask(rs, c3, StoreOpV::Read(owner, manifest_path(row.name))) {
                        Asked::Waiting(o) => Asked::Waiting(o),
                        Asked::Answered(r2, c4) => s_then_drop(
                            match as_text(r2) {
                                Ok(existing) => if existing != raw {
                                    s_back_up(rs, c4, owner, row.id, row.name, raw)
                                } else {
                                    Asked::Answered(Ok(()), c4)
                                },
                                Err(_) => s_install(rs, c4, owner, row.name, raw),
                            },
                            rs,
                            row.id,
                        ),
                    }
                },
            },
        },
    }
}

/// Migrates the rows `rows[i..]` in turn, stopping at the first failure.
pub open spec fn s_migrate_from(st: SkillStoreV, rs: Seq<StoreReplyV>, c: nat, rows: Seq<LegacyRowV>, i: int) -> Asked<
    Result<(), StoreErrorV>,
>
    decreases rows.len() - i,
{
    if i < 0 || i >= rows.len() {
        Asked::Answered(Ok(()), c)
    } else {
        match s_migrate_row(st, rs, c, rows[i]) {
            Asked::Waiting(o) => Asked::Waiting(o),
            Asked::Answered(Err(e), c2) => Asked::Answered(Err(e), c2),
            Asked::Answered(Ok(_), c2) => s_migrate_from(st, rs, c2, rows, i + 1),
        }
    }
}

/// Moves the legacy rows into skill bundles: a row without an owner is
/// refused before anything happens, and without user storage nothing does.
pub open spec fn s_migrate(st: SkillStoreV, rs: Seq<StoreReplyV>, c: nat, rows: Seq<LegacyRowV>) -> Asked<
    Result<(), StoreErrorV>,
> {
    match ownerless_from(rows, 0) {
        Some(i) => Asked::Answered(
            Err(
                StoreErrorV::Invalid(
                    "legacy ownerless skill '"@ + rows[i].name + "' must be converted into server/skills/"@
                        + rows[i].name + "/SKILL.md"@,
                ),
            ),
            c,
        ),
        None => if !st.storage {
            Asked::Answered(Ok(()), c)
        } else {
            s_migrate_from(st, rs, c, rows, 0)
        },
    }
}

fn legacy_manifest_of(row: &LegacyRow) -> (m: SkillManifest)
    ensures
        m@ == legacy_manifest(row@),
{
    SkillManifest {
        name: row.name.clone(),
        description: row.description.clone(),
        license: None,
        compatibility: None,
        metadata: None,
        allowed_tools: None,
    }
}

fn done_or_internal(reply: &StoreReply) -> (r: Result<(), SkillStoreError>)
    ensures
        res_unit(r) == match as_done(reply@) {
            Err(e) => Err(StoreErrorV::Internal(e)),
            Ok(_) => Ok::<(), StoreErrorV>(()),
        },
{
    match outcome_of(reply) {
        Ok(()) => Ok(()),
        Err(e) => Err(SkillStoreError::Internal(e)),
    }
}

impl SkillStore {
    fn back_up(rp: &mut Replay, owner: u128, id: u128, name: &str, content: String) -> (r: Result<
        Result<(), SkillStoreError>,
        StoreOp,
    >)
        ensures
            final(rp).replies == old(rp).replies,
            match r {
                Ok(v) => s_back_up(old(rp).rv(), old(rp).cursor as nat, owner, id, name@, content@)
                    == Asked::Answered(res_unit(v), final(rp).cursor as nat),
                Err(o) => s_back_up(old(rp).rv(), old(rp).cursor as nat, owner, id, name@, content@)
                    == Asked::<Result<(), StoreErrorV>>::Waiting(o@),
            },
    {
        let mut dir = "skill-migration-conflicts/".to_owned();
        let hex = uuid_simple(id);
        push_str(&mut dir, hex.as_str());
        if validate_name(name).is_ok() {
            push_str(&mut dir, "-");
            push_str(&mut dir, name);
        }
        proof {
            reveal_strlit("");
            assert(dir@ =~= backup_dir(id, name@));
        }
        match rp.ask(StoreOp::CreateDir { owner, path: dir.clone() }) {
            Err(o) => {
                return Err(o);
            },
            Ok(reply) => match done_or_internal(reply) {
                Err(e) => {
                    return Ok(Err(e));
                },
                Ok(()) => {},
            },
        }
        let path = cat3(dir.as_str(), "/SKILL.md", "");
        assert(path@ =~= dir@ + "/SKILL.md"@);
        match rp.ask(StoreOp::Write { owner, path, content }) {
            Err(o) => Err(o),
            Ok(reply) => Ok(done_or_internal(reply)),
        }
    }

    fn install(rp: &mut Replay, owner: u128, name: &str, raw: String) -> (r: Result<
        Result<(), SkillStoreError>,
        StoreOp,
    >)
        ensures
            final(rp).replies == old(rp).replies,
            match r {
                Ok(v) => s_install(old(rp).rv(), old(rp).cursor as nat, owner, name@, raw@)
                    == Asked::Answered(res_unit(v), final(rp).cursor as nat),
                Err(o) => s_install(old(rp).rv(), old(rp).cursor as nat, owner, name@, raw@)
                    == Asked::<Result<(), StoreErrorV>>::Waiting(o@),
            },
    {
        match rp.ask(StoreOp::CreateDir { owner, path: crate::skills::user_skill_rel(name) }) {
            Err(o) => {
                return Err(o);
            },
            Ok(reply) => match done_or_internal(reply) {
                Err(e) => {
                    return Ok(Err(e));
                },
                Ok(()) => {},
            },
        }
        match rp.ask(
            StoreOp::Write { owner, path: crate::skills::user_manifest_path(name), content: raw },
        ) {
            Err(o) => Err(o),
            Ok(reply) => Ok(done_or_internal(reply)),
        }
    }

    fn then_drop(
        rp: &mut Replay,
        step: Result<Result<(), SkillStoreError>, StoreOp>,
        id: u128,
        Ghost(before): Ghost<Asked<Result<(), StoreErrorV>>>,
    ) -> (r: Result<Result<(), SkillStoreError>, StoreOp>)
        requires
            match step {
                Ok(v) => before == Asked::Answered(res_unit(v), old(rp).cursor as nat),
                Err(o) => before == Asked::<Result<(), StoreErrorV>>::Waiting(o@),
            },
        ensures
            final(rp).replies == old(rp).replies,
            match r {
                Ok(v) => s_then_drop(before, old(rp).rv(), id) == Asked::Answered(
                    res_unit(v),
                    final(rp).cursor as nat,
                ),
                Err(o) => s_then_drop(before, old(rp).rv(), id) == Asked::<
                    Result<(), StoreErrorV>,
                >::Waiting(o@),
            },
    {
        match step {
            Err(o) => Err(o),
            Ok(Err(e)) => Ok(Err(e)),
            Ok(Ok(())) => match rp.ask(StoreOp::DeleteLegacy(id)) {
                Err(o) => Err(o),
                Ok(reply) => Ok(done_or_internal(reply)),
            },
        }
    }

    fn migrate_row(&self, rp: &mut Replay, row: &LegacyRow) -> (r: Result<
        Result<(), SkillStoreError>,
        StoreOp,
    >)
        ensures
            final(rp).replies == old(rp).replies,
            match r {
                Ok(v) => s_migrate_row(self@, old(rp).rv(), old(rp).cursor as nat, row@)
                    == Asked::Answered(res_unit(v), final(rp).cursor as nat),
                Err(o) => s_migrate_row(self@, old(rp).rv(), old(rp).cursor as nat, row@)
                    == Asked::<Result<(), StoreErrorV>>::Waiting(o@),
            },
    {
        let owner = match row.owner {
            Some(o) => o,
            None => 0,
        };
        match self.ensure_root(rp, owner) {
            Err(o) => {
                return Err(o);
            },
            Ok(Err(e)) => {
                return Ok(Err(e));
            },
            Ok(Ok(())) => {},
        }
        let rendered = match rp.ask(
            StoreOp::Render { manifest: legacy_manifest_of(row), content: row.content.clone() },
        ) {
            Err(o) => {
                return Err(o);
            },
            Ok(reply) => rendered_of(reply),
        };
        let raw = match rendered {
            Err(_) => {
                let raw = match rp.ask(
                    StoreOp::RenderBackup {
                        manifest: legacy_manifest_of(row),
                        content: row.content.clone(),
                    },
                ) {
                    Err(o) => {
                        return Err(o);
                    },
                    Ok(reply) => match rendered_of(reply) {
                        Err(e) => {
                            return Ok(Err(e));
                        },
                        Ok(raw) => raw,
                    },
                };
                let ghost rv = rp.rv();
                let ghost c = rp.cursor as nat;
                let step = SkillStore::back_up(rp, owner, row.id, row.name.as_str(), raw);
                return SkillStore::then_drop(
                    rp,
                    step,
                    row.id,
                    Ghost(s_back_up(rv, c, owner, row.id, row.name@, raw@)),
                );
            },
            Ok(raw) => raw,
        };
        if self.system_index(row.name.as_str()).is_some() {
            let ghost rv = rp.rv();
            let ghost c = rp.cursor as nat;
            let step = SkillStore::back_up(rp, owner, row.id, row.name.as_str(), raw);
            return SkillStore::then_drop(
                rp,
                step,
                row.id,
                Ghost(s_back_up(rv, c, owner, row.id, row.name@, raw@)),
            );
        }
        let reply = match rp.ask(
            StoreOp::Read { owner, path: crate::skills::user_manifest_path(row.name.as_str()) },
        ) {
            Err(o) => {
                return Err(o);
            },
            Ok(reply) => reply,
        };
        let ghost rv = rp.rv();
        let ghost c = rp.cursor as nat;
        match reply {
            StoreReply::Text(Ok(existing)) => {
                let same = crate::text::chars_eq(
                    chars_of(existing.as_str()).as_slice(),
                    chars_of(raw.as_str()).as_slice(),
                );
                if !same {
                    let step = SkillStore::back_up(rp, owner, row.id, row.name.as_str(), raw);
                    SkillStore::then_drop(
                        rp,
                        step,
                        row.id,
                        Ghost(s_back_up(rv, c, owner, row.id, row.name@, raw@)),
                    )
                } else {
                    SkillStore::then_drop(
                        rp,
                        Ok(Ok(())),
                        row.id,
                        Ghost(Asked::Answered(Ok(()), c)),
                    )
                }
            },
            _ => {
                let step = SkillStore::install(rp, owner, row.name.as_str(), raw);
                SkillStore::then_drop(
                    rp,
                    step,
                    row.id,
                    Ghost(s_install(rv, c, owner, row.name@, raw@)),
                )
            },
        }
    }

    /// Moves the legacy rows into skill bundles under each owner's
    /// `skills/`, deleting each row once it is moved.
    pub fn migrate_legacy(&self, rp: &mut Replay, rows: &[LegacyRow]) -> (r: Result<
        Result<(), SkillStoreError>,
        StoreOp,
    >)
        ensures
            final(rp).replies == old(rp).replies,
            match r {
                Ok(v) => s_migrate(self@, old(rp).rv(), old(rp).cursor as nat, rows_of(rows@))
                    == Asked::Answered(res_unit(v), final(rp).cursor as nat),
                Err(o) => s_migrate(self@, old(rp).rv(), old(rp).cursor as nat, rows_of(rows@))
                    == Asked::<Result<(), StoreErrorV>>::Waiting(o@),
            },
    {
        let ghost rv = rows_of(rows@);
        let mut k: usize = 0;
        while k < rows.len()
            invariant
                rv == rows_of(rows@),
                rv.len() == rows@.len(),
                k <= rows.len(),
                ownerless_from(rv, 0) == ownerless_from(rv, k as int),
            decreases rows.len() - k,
        {
            assert(rv[k as int] == rows@[k as int]@);
            if rows[k].owner.is_none() {
                let name = rows[k].name.as_str();
                let mut m = cat3("legacy ownerless skill '", name, "' must be converted into server/skills/");
                push_str(&mut m, name);
                push_str(&mut m, "/SKILL.md");
                return Ok(Err(SkillStoreError::Invalid(m)));
            }
            k += 1;
        }
        if !self.storage {
            return Ok(Ok(()));
        }
        let ghost st = self@;
        let ghost replies = rp.rv();
        let ghost c0 = rp.cursor as nat;
        let mut i: usize = 0;
        while i < rows.len()
            invariant
                rv == rows_of(rows@),
                rv.len() == rows@.len(),
                st == self@,
                replies == rp.rv(),
                rp.replies == old(rp).replies,
                c0 == old(rp).cursor as nat,
                ownerless_from(rv, 0) is None,
                st.storage,
                i <= rows.len(),
                s_migrate_from(st, replies, c0, rv, 0) == s_migrate_from(
                    st,
                    replies,
                    rp.cursor as nat,
                    rv,
                    i as int,
                ),
            decreases rows.len() - i,
        {
            assert(rv[i as int] == rows@[i as int]@);
            match self.migrate_row(rp, &rows[i]) {
                Err(o) => {
                    return Err(o);
                },
                Ok(Err(e)) => {
                    return Ok(Err(e));
                },
                Ok(Ok(())) => {},
            }
            i += 1;
        }
        Ok(Ok(()))
    }
}

/// Built-in names are reserved: a user skill cannot be created or updated
/// under the name of a system skill, and loading that name gives the system
/// skill unless it is excluded, whatever the user's tree holds.
pub proof fn lemma_builtin_names_are_reserved(
    st: SkillStoreV,
    rs: Seq<StoreReplyV>,
    c: nat,
    owner: u128,
    name: Seq<char>,
    description: Seq<char>,
    content: Seq<char>,
    excluded: Seq<Seq<char>>,
)
    requires
        system_index(st.system, name) is Some,
        valid_name(name),
    ensures
        s_create(st, rs, c, owner, name, description, content) matches Asked::Answered(
            Err(StoreErrorV::Conflict(_)),
            c2,
        ) && c2 == c,
        s_update(st, rs, c, owner, name, description, content) matches Asked::Answered(
            Err(StoreErrorV::Conflict(_)),
            c2,
        ) && c2 == c,
        !excluded.contains(name) ==> s_load(st, rs, c, owner, name, excluded) == Asked::Answered(
            Ok::<SkillV, StoreErrorV>(st.system[system_index(st.system, name)->0]),
            c,
        ),
        excluded.contains(name) ==> s_load(st, rs, c, owner, name, excluded) == Asked::Answered(
            Err::<SkillV, StoreErrorV>(not_found(name)),
            c,
        ),
{
}

/// Migrating again changes nothing. Once the rows are gone, a migration
/// asks nothing and succeeds. A row that is still there, whose bundle already
/// holds the text the row renders to, is only dropped: nothing is written or
/// backed up for it.
pub proof fn lemma_migration_is_idempotent(
    st: SkillStoreV,
    rs: Seq<StoreReplyV>,
    c: nat,
    row: LegacyRowV,
    c2: nat,
    raw: Seq<char>,
)
    requires
        row.owner is Some,
        s_ensure_root(st, rs, c, row.owner->0) == Asked::<Result<(), StoreErrorV>>::Answered(
            Ok(()),
            c2,
        ),
        c2 + 1 < rs.len(),
        as_rendered(rs[c2 as int]) == Ok::<Seq<char>, StoreErrorV>(raw),
        system_index(st.system, row.name) is None,
        as_text(rs[c2 + 1int]) == Ok::<Seq<char>, Seq<char>>(raw),
    ensures
        s_migrate(st, rs, c, Seq::empty()) == Asked::Answered(Ok::<(), StoreErrorV>(()), c),
        s_migrate_row(st, rs, c, row) == s_then_drop(
            Asked::Answered(Ok::<(), StoreErrorV>(()), c2 + 2),
            rs,
            row.id,
        ),
{
    assert(ownerless_from(Seq::<LegacyRowV>::empty(), 0) is None);
}

/// The system skills kept after the exclusions are exactly the system
/// skills whose names are not excluded.
proof fn lemma_without_excluded(system: Seq<SkillV>, excluded: Seq<Seq<char>>)
    ensures
        forall|s: SkillV| #[trigger] without_excluded(system, excluded).contains(s) <==> (system.contains(s)
            && !excluded.contains(s.manifest.name)),
    decreases system.len(),
{
    if system.len() > 0 {
        let d = system.drop_last();
        lemma_without_excluded(d, excluded);
        let w = without_excluded(d, excluded);
        assert forall|s: SkillV| #[trigger] without_excluded(system, excluded).contains(s) <==> (system.contains(s)
            && !excluded.contains(s.manifest.name)) by {
            if d.contains(s) {
                let j = choose|j: int| 0 <= j < d.len() && d[j] == s;
                assert(system[j] == s);
            }
            if system.contains(s) {
                let j = choose|j: int| 0 <= j < system.len() && system[j] == s;
                if j < d.len() {
                    assert(d[j] == s);
                }
            }
            if !excluded.contains(system.last().manifest.name) {
                if w.push(system.last()).contains(s) {
                    let k = choose|k: int| 0 <= k < w.push(system.last()).len() && w.push(system.last())[k] == s;
                    if k < w.len() {
                        assert(w[k] == s);
                    }
                }
                if w.contains(s) {
                    let k = choose|k: int| 0 <= k < w.len() && w[k] == s;
                    assert(w.push(system.last())[k] == s);
                }
                if s == system.last() {
                    assert(w.push(system.last())[w.len() as int] == s);
                }
            }
        }
    }
}

/// Adding user skills keeps what was there.
proof fn lemma_add_user_keeps(
    st: SkillStoreV,
    rs: Seq<StoreReplyV>,
    c: nat,
    owner: u128,
    vs: Seq<UserSkillViewV>,
    i: int,
    acc: Seq<SkillV>,
)
    ensures
        s_add_user_from(st, rs, c, owner, vs, i, acc) matches Asked::Answered(Ok(all), _) ==> forall|s: SkillV|
            #[trigger] acc.contains(s) ==> all.contains(s),
    decreases vs.len() - i,
{
    if 0 <= i < vs.len() {
        if vs[i].valid && system_index(st.system, vs[i].name) is None {
            match s_load_user(st, rs, c, owner, vs[i].name) {
                Asked::Answered(Ok(sk), c2) => {
                    lemma_add_user_keeps(st, rs, c2, owner, vs, i + 1, acc.push(sk));
                    assert forall|s: SkillV| #[trigger] acc.contains(s) implies acc.push(sk).contains(s) by {
                        let k = choose|k: int| 0 <= k < acc.len() && acc[k] == s;
                        assert(acc.push(sk)[k] == s);
                    }
                },
                _ => {},
            }
        } else {
            lemma_add_user_keeps(st, rs, c, owner, vs, i + 1, acc);
        }
    }
}

/// The skills an agent is offered leave out the excluded system skills:
/// every system skill whose name is not excluded is offered; without user
/// storage exactly those are offered, so no system skill whose name is
/// excluded is; and a skill with an excluded name is offered only when it
/// comes from the user's own tree.
pub proof fn lemma_available_honours_exclusions(
    st: SkillStoreV,
    rs: Seq<StoreReplyV>,
    c: nat,
    owner: u128,
    excluded: Seq<Seq<char>>,
)
    ensures
        s_available(st, rs, c, owner, excluded) matches Asked::Answered(Ok(v), _) ==> {
            &&& forall|s: SkillV|
                st.system.contains(s) && !excluded.contains(s.manifest.name) ==> #[trigger] v.contains(s)
            &&& !st.storage ==> forall|s: SkillV|
                #[trigger] v.contains(s) <==> (st.system.contains(s) && !excluded.contains(s.manifest.name))
            &&& forall|s: SkillV| #[trigger] v.contains(s) && excluded.contains(s.manifest.name) ==> st.storage
        },
{
    let base = without_excluded(st.system, excluded);
    let key = |s: SkillV| skill_name(s);
    lemma_without_excluded(st.system, excluded);
    if !st.storage {
        crate::sorting::lemma_sort_by_contains(base, key);
        let v = sort_by(base, key);
        assert(s_available(st, rs, c, owner, excluded) == Asked::Answered(Ok::<Seq<SkillV>, StoreErrorV>(v), c));
        assert forall|s: SkillV| #[trigger] v.contains(s) <==> (st.system.contains(s) && !excluded.contains(s.manifest.name)) by {
            assert(v.contains(s) <==> base.contains(s));
            assert(base.contains(s) <==> (st.system.contains(s) && !excluded.contains(s.manifest.name)));
        }
    } else {
        match s_user_views(st, rs, c, owner) {
            Asked::Answered(Ok(vs), c2) => {
                lemma_add_user_keeps(st, rs, c2, owner, vs, 0, base);
                match s_add_user_from(st, rs, c2, owner, vs, 0, base) {
                    Asked::Answered(Ok(all), _) => {
                        crate::sorting::lemma_sort_by_contains(all, key);
                        let v = sort_by(all, key);
                        assert forall|s: SkillV|
                            st.system.contains(s) && !excluded.contains(s.manifest.name) implies #[trigger] v.contains(s) by {
                            assert(base.contains(s));
                            assert(all.contains(s));
                        }
                    },
                    _ => {},
                }
            },
            _ => {},
        }
    }
}

} // verus!
