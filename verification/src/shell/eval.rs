//! Evaluation of a parsed command line.
//!
//! The evaluator never touches a file system itself. It runs against a log
//! of replies: each file operation it needs takes the next reply from the
//! log, and when the log is used up it stops and names the operation it
//! needs answered. A driver performs that operation, appends the reply and
//! runs the evaluator again from the start. Evaluation is a function of the
//! command and the replies, so each run retraces the one before it.
use vstd::prelude::*;

use crate::ocr::{decimal_string, decimal_text};
use crate::shell::builtins::{
    arg_views, basename, normalize, spec_normalize, spec_split_flags, spec_split_parent,
    split_flags, split_parent,
};
use crate::shell::lexer::{Part, PartV, Word, WordV};
use crate::shell::parser::{
    parse_script, spec_parse_script, branches_view, node_view, nodes_view, redirect_view, simple_view, Node, NodeV, Redirect,
    RedirectV, Simple, SimpleV,
};
use crate::skills::push_str;
use crate::text::chars_of;
use crate::shell::builtins::{echo, int_op_holds, parse_count, parse_i64, spec_echo, spec_parse_count};
use crate::shell::text_cmds::{
    any_selected, grep_args, grep_needle, grep_options_of, grep_sources, grep_text, has_char,
    head_tail_text, int_test_op, source_views, spec_head_tail, spec_stat_answer, spec_test_step,
    spec_wc, stat_answer, test_step, wc_text, GrepOptions, StatQuery, TestStep,
};
use crate::text::lines;

verus! {

broadcast use vstd::string::group_string_axioms;

/// How many times a `while` loop may run its body.
pub const MAX_LOOP_ITERATIONS: usize = 100000;

// ---------------------------------------------------------------------------
// File operations and their replies.
// ---------------------------------------------------------------------------

/// A file operation the evaluator asks for, on workspace-relative paths.
#[derive(Clone, Debug)]
pub enum FsOp {
    Read(String),
    Write(String, String),
    List(String),
    CreateDir(String),
    Delete(String),
}

pub enum FsOpV {
    Read(Seq<char>),
    Write(Seq<char>, Seq<char>),
    List(Seq<char>),
    CreateDir(Seq<char>),
    Delete(Seq<char>),
}

impl View for FsOp {
    type V = FsOpV;

    open spec fn view(&self) -> FsOpV {
        match self {
            FsOp::Read(p) => FsOpV::Read(p@),
            FsOp::Write(p, c) => FsOpV::Write(p@, c@),
            FsOp::List(p) => FsOpV::List(p@),
            FsOp::CreateDir(p) => FsOpV::CreateDir(p@),
            FsOp::Delete(p) => FsOpV::Delete(p@),
        }
    }
}

/// One entry of a directory listing.
#[derive(Clone, Debug)]
pub struct Listed {
    pub name: String,
    pub is_dir: bool,
}

/// The answer to a file operation: the text read (`None` when the read
/// failed), the entries listed (`None` when the listing failed), or the
/// outcome of a change (the error's text when it failed).
#[derive(Debug)]
pub enum FsReply {
    Text(Option<String>),
    Listing(Option<Vec<Listed>>),
    Outcome(Result<(), String>),
}

pub enum FsReplyV {
    Text(Option<Seq<char>>),
    Listing(Option<Seq<(Seq<char>, bool)>>),
    Outcome(Result<(), Seq<char>>),
}

pub open spec fn listed_views(v: Seq<Listed>) -> Seq<(Seq<char>, bool)> {
    v.map_values(|l: Listed| (l.name@, l.is_dir))
}

impl View for FsReply {
    type V = FsReplyV;

    open spec fn view(&self) -> FsReplyV {
        match self {
            FsReply::Text(t) => FsReplyV::Text(
                match t {
                    Some(s) => Some(s@),
                    None => None,
                },
            ),
            FsReply::Listing(l) => FsReplyV::Listing(
                match l {
                    Some(v) => Some(listed_views(v@)),
                    None => None,
                },
            ),
            FsReply::Outcome(o) => FsReplyV::Outcome(
                match o {
                    Ok(_) => Ok(()),
                    Err(e) => Err(e@),
                },
            ),
        }
    }
}

pub open spec fn reply_views(rs: Seq<FsReply>) -> Seq<FsReplyV> {
    rs.map_values(|r: FsReply| r@)
}

/// The text a reply carries; any other kind of reply counts as a failed read.
pub open spec fn reply_text(r: FsReplyV) -> Option<Seq<char>> {
    match r {
        FsReplyV::Text(t) => t,
        _ => None,
    }
}

/// The entries a reply carries; any other kind counts as a failed listing.
pub open spec fn reply_listing(r: FsReplyV) -> Option<Seq<(Seq<char>, bool)>> {
    match r {
        FsReplyV::Listing(l) => l,
        _ => None,
    }
}

/// The outcome a reply carries; any other kind counts as a failure with
/// no text.
pub open spec fn reply_outcome(r: FsReplyV) -> Result<(), Seq<char>> {
    match r {
        FsReplyV::Outcome(o) => o,
        _ => Err(Seq::empty()),
    }
}

// ---------------------------------------------------------------------------
// Shell variables.
// ---------------------------------------------------------------------------

/// The variables of a shell: later entries win.
pub struct Vars {
    pub entries: Vec<(String, String)>,
}

pub open spec fn vars_map(s: Seq<(String, String)>) -> Map<Seq<char>, Seq<char>>
    decreases s.len(),
{
    if s.len() == 0 {
        Map::empty()
    } else {
        vars_map(s.drop_last()).insert(s.last().0@, s.last().1@)
    }
}

impl View for Vars {
    type V = Map<Seq<char>, Seq<char>>;

    open spec fn view(&self) -> Map<Seq<char>, Seq<char>> {
        vars_map(self.entries@)
    }
}

proof fn lemma_vars_tail(s: Seq<(String, String)>, i: int, k: Seq<char>)
    requires
        0 <= i <= s.len(),
        forall|j: int| i <= j < s.len() ==> (#[trigger] s[j]).0@ != k,
    ensures
        vars_map(s).contains_key(k) == vars_map(s.take(i)).contains_key(k),
        vars_map(s).contains_key(k) ==> vars_map(s)[k] == vars_map(s.take(i))[k],
    decreases s.len(),
{
    if i == s.len() {
        assert(s.take(i) == s);
    } else {
        assert(s.drop_last().take(i) == s.take(i));
        assert(s[s.len() - 1].0@ != k);
        lemma_vars_tail(s.drop_last(), i, k);
    }
}

proof fn lemma_vars_update(s: Seq<(String, String)>, i: int, e: (String, String))
    requires
        0 <= i < s.len(),
        s[i].0@ == e.0@,
        forall|j: int| i < j < s.len() ==> (#[trigger] s[j]).0@ != e.0@,
    ensures
        vars_map(s.update(i, e)) == vars_map(s).insert(e.0@, e.1@),
    decreases s.len(),
{
    let t = s.update(i, e);
    if i == s.len() - 1 {
        assert(t.drop_last() == s.drop_last());
        assert(vars_map(t) =~= vars_map(s).insert(e.0@, e.1@));
    } else {
        assert(t.drop_last() == s.drop_last().update(i, e));
        lemma_vars_update(s.drop_last(), i, e);
        assert(s[s.len() - 1].0@ != e.0@);
        assert(vars_map(t) =~= vars_map(s).insert(e.0@, e.1@));
    }
}

fn same_str(a: &String, b: &str) -> (r: bool)
    ensures
        r == (a@ == b@),
{
    let av = chars_of(a.as_str());
    crate::text::str_is(b, av.as_slice())
}

impl Vars {
    pub fn new() -> (v: Vars)
        ensures
            v@ == Map::<Seq<char>, Seq<char>>::empty(),
    {
        Vars { entries: Vec::new() }
    }

    /// The index of the last entry named `name`.
    fn find(&self, name: &str) -> (r: Option<usize>)
        ensures
            match r {
                Some(i) => i < self.entries@.len() && self.entries@[i as int].0@ == name@ && forall|
                    j: int,
                | i < j < self.entries@.len() ==> (#[trigger] self.entries@[j]).0@ != name@,
                None => forall|j: int|
                    0 <= j < self.entries@.len() ==> (#[trigger] self.entries@[j]).0@ != name@,
            },
    {
        let mut i = self.entries.len();
        while i > 0
            invariant
                i <= self.entries@.len(),
                forall|j: int| i <= j < self.entries@.len() ==> (#[trigger] self.entries@[j]).0@ != name@,
            decreases i,
        {
            if same_str(&self.entries[i - 1].0, name) {
                return Some(i - 1);
            }
            i -= 1;
        }
        None
    }

    /// The value of `name`; empty when it is not set.
    pub fn get(&self, name: &str) -> (r: String)
        ensures
            r@ == (if self@.contains_key(name@) {
                self@[name@]
            } else {
                Seq::empty()
            }),
    {
        match self.find(name) {
            Some(i) => {
                proof {
                    let s = self.entries@;
                    lemma_vars_tail(s, i + 1, name@);
                    assert(s.take(i + 1).drop_last() == s.take(i as int));
                }
                self.entries[i].1.clone()
            },
            None => {
                proof {
                    lemma_vars_tail(self.entries@, 0, name@);
                    assert(self.entries@.take(0).len() == 0);
                }
                String::new()
            },
        }
    }

    /// Sets `name` to `value`.
    pub fn set(&mut self, name: String, value: String)
        ensures
            final(self)@ == old(self)@.insert(name@, value@),
    {
        match self.find(name.as_str()) {
            Some(i) => {
                proof {
                    lemma_vars_update(self.entries@, i as int, (name, value));
                }
                self.entries.set(i, (name, value));
            },
            None => {
                let ghost s = self.entries@;
                self.entries.push((name, value));
                assert(self.entries@.drop_last() == s);
            },
        }
    }
}

// ---------------------------------------------------------------------------
// The shell's state and the steps of evaluation.
// ---------------------------------------------------------------------------

/// What the shell holds while it runs: its variables, working directory
/// (workspace-relative, empty for the root), last exit status and the
/// output so far, and how many replies it has used.
pub struct Shell {
    pub vars: Vars,
    pub cwd: String,
    pub status: i32,
    pub stdout: String,
    pub stderr: String,
    pub cursor: usize,
}

pub struct ShellV {
    pub vars: Map<Seq<char>, Seq<char>>,
    pub cwd: Seq<char>,
    pub status: i32,
    pub stdout: Seq<char>,
    pub stderr: Seq<char>,
    pub cursor: nat,
}

impl View for Shell {
    type V = ShellV;

    open spec fn view(&self) -> ShellV {
        ShellV {
            vars: self.vars@,
            cwd: self.cwd@,
            status: self.status,
            stdout: self.stdout@,
            stderr: self.stderr@,
            cursor: self.cursor as nat,
        }
    }
}

/// A step of evaluation: it finished with a value and a new state, or it
/// needs an operation answered first.
pub enum Step<T> {
    Done(T, ShellV),
    Pending(FsOpV),
}

/// A shell's exit status is 0 or 1.
pub open spec fn status_ok(sh: ShellV) -> bool {
    sh.status == 0 || sh.status == 1
}

pub open spec fn with_status(sh: ShellV, status: i32) -> ShellV {
    ShellV { status, ..sh }
}

pub open spec fn with_cursor(sh: ShellV, cursor: nat) -> ShellV {
    ShellV { cursor, ..sh }
}

pub open spec fn with_stdout(sh: ShellV, stdout: Seq<char>) -> ShellV {
    ShellV { stdout, ..sh }
}

pub open spec fn with_cwd(sh: ShellV, cwd: Seq<char>) -> ShellV {
    ShellV { cwd, ..sh }
}

pub open spec fn with_var(sh: ShellV, name: Seq<char>, value: Seq<char>) -> ShellV {
    ShellV { vars: sh.vars.insert(name, value), ..sh }
}

/// Takes the next reply, or asks for `op` when there is none left.
pub open spec fn sp_request(rs: Seq<FsReplyV>, sh: ShellV, op: FsOpV) -> Step<FsReplyV> {
    if sh.cursor < rs.len() {
        Step::Done(rs[sh.cursor as int], with_cursor(sh, sh.cursor + 1))
    } else {
        Step::Pending(op)
    }
}

/// Records a failure: status 1 and `msg` on its own line of stderr.
pub open spec fn sp_fail(sh: ShellV, msg: Seq<char>) -> ShellV {
    ShellV { status: 1, stderr: sh.stderr + msg + seq!['\n'], ..sh }
}

/// The text of an exit status.
pub open spec fn status_text(status: i32) -> Seq<char> {
    decimal_text(status as nat)
}

/// The value of variable `name` (`?` is the last exit status).
pub open spec fn sp_var(sh: ShellV, name: Seq<char>) -> Seq<char> {
    if name == "?"@ {
        status_text(sh.status)
    } else if sh.vars.contains_key(name) {
        sh.vars[name]
    } else {
        Seq::empty()
    }
}

pub open spec fn sp_part(sh: ShellV, p: PartV) -> Seq<char> {
    match p {
        PartV::Lit(s) => s,
        PartV::Var(n) => sp_var(sh, n),
    }
}

pub open spec fn sp_expand_parts(sh: ShellV, parts: Seq<PartV>) -> Seq<char>
    decreases parts.len(),
{
    if parts.len() == 0 {
        Seq::empty()
    } else {
        sp_expand_parts(sh, parts.drop_last()) + sp_part(sh, parts.last())
    }
}

/// A word with its variables replaced by their values.
pub open spec fn sp_expand(sh: ShellV, w: WordV) -> Seq<char> {
    sp_expand_parts(sh, w.parts)
}

/// `path` resolved against the working directory `cwd`.
pub open spec fn sp_resolve(cwd: Seq<char>, path: Seq<char>) -> Seq<char> {
    spec_normalize(
        if path.len() > 0 && path[0] == '/' {
            Seq::empty()
        } else {
            cwd
        },
        path,
    )
}

/// Reads `path`.
pub open spec fn sp_read(rs: Seq<FsReplyV>, sh: ShellV, path: Seq<char>) -> Step<Option<Seq<char>>> {
    match sp_request(rs, sh, FsOpV::Read(path)) {
        Step::Done(r, sh2) => Step::Done(reply_text(r), sh2),
        Step::Pending(o) => Step::Pending(o),
    }
}

/// Lists the directory `path`.
pub open spec fn sp_list(rs: Seq<FsReplyV>, sh: ShellV, path: Seq<char>) -> Step<
    Option<Seq<(Seq<char>, bool)>>,
> {
    match sp_request(rs, sh, FsOpV::List(path)) {
        Step::Done(r, sh2) => Step::Done(reply_listing(r), sh2),
        Step::Pending(o) => Step::Pending(o),
    }
}

/// Performs a change (write, directory creation or deletion).
pub open spec fn sp_change(rs: Seq<FsReplyV>, sh: ShellV, op: FsOpV) -> Step<Result<(), Seq<char>>> {
    match sp_request(rs, sh, op) {
        Step::Done(r, sh2) => Step::Done(reply_outcome(r), sh2),
        Step::Pending(o) => Step::Pending(o),
    }
}

/// Whether the first entry called `name` is a directory.
pub open spec fn first_named(es: Seq<(Seq<char>, bool)>, name: Seq<char>) -> Option<bool>
    decreases es.len(),
{
    if es.len() == 0 {
        None
    } else if es[0].0 == name {
        Some(es[0].1)
    } else {
        first_named(es.drop_first(), name)
    }
}

/// Whether `path` exists, and then whether it is a directory, found by
/// listing its parent. The root always exists.
pub open spec fn sp_stat(rs: Seq<FsReplyV>, sh: ShellV, path: Seq<char>) -> Step<Option<bool>> {
    if path.len() == 0 {
        Step::Done(Some(true), sh)
    } else {
        let (parent, name) = spec_split_parent(path);
        match sp_list(rs, sh, parent) {
            Step::Done(l, sh2) => Step::Done(
                match l {
                    Some(es) => first_named(es, name),
                    None => None,
                },
                sh2,
            ),
            Step::Pending(o) => Step::Pending(o),
        }
    }
}

/// Reads and joins `files[i..]` after `out`; a missing file is a failure
/// `cmd: file: not found`.
pub open spec fn sp_read_all_from(
    rs: Seq<FsReplyV>,
    sh: ShellV,
    files: Seq<Seq<char>>,
    cmd: Seq<char>,
    i: int,
    out: Seq<char>,
) -> Step<Option<Seq<char>>>
    decreases files.len() - i,
{
    if i < 0 || i >= files.len() {
        Step::Done(Some(out), sh)
    } else {
        match sp_read(rs, sh, sp_resolve(sh.cwd, files[i])) {
            Step::Done(Some(c), sh2) => sp_read_all_from(rs, sh2, files, cmd, i + 1, out + c),
            Step::Done(None, sh2) => Step::Done(
                None,
                sp_fail(sh2, cmd + ": "@ + files[i] + ": not found"@),
            ),
            Step::Pending(o) => Step::Pending(o),
        }
    }
}

/// The files joined, or `stdin` when there are none.
pub open spec fn sp_read_all(
    rs: Seq<FsReplyV>,
    sh: ShellV,
    files: Seq<Seq<char>>,
    stdin: Seq<char>,
    cmd: Seq<char>,
) -> Step<Option<Seq<char>>> {
    if files.len() == 0 {
        Step::Done(Some(stdin), sh)
    } else {
        sp_read_all_from(rs, sh, files, cmd, 0, Seq::empty())
    }
}

/// Writes `content` to `path`; a refusal is a failure `path: error`.
pub open spec fn sp_write_new(rs: Seq<FsReplyV>, sh: ShellV, path: Seq<char>, content: Seq<char>) -> Step<
    (),
> {
    match sp_change(rs, sh, FsOpV::Write(path, content)) {
        Step::Done(Ok(_), sh2) => Step::Done((), sh2),
        Step::Done(Err(e), sh2) => Step::Done((), sp_fail(sh2, path + ": "@ + e)),
        Step::Pending(o) => Step::Pending(o),
    }
}

/// Writes `content` to `path`, after what it holds when `append`.
pub open spec fn sp_write_file(
    rs: Seq<FsReplyV>,
    sh: ShellV,
    path: Seq<char>,
    content: Seq<char>,
    append: bool,
) -> Step<()> {
    if append {
        match sp_read(rs, sh, path) {
            Step::Done(e, sh2) => sp_write_new(
                rs,
                sh2,
                path,
                match e {
                    Some(x) => x,
                    None => Seq::empty(),
                } + content,
            ),
            Step::Pending(o) => Step::Pending(o),
        }
    } else {
        sp_write_new(rs, sh, path, content)
    }
}

pub open spec fn opt_text(t: Option<&String>) -> Option<Seq<char>> {
    match t {
        Some(s) => Some(s@),
        None => None,
    }
}

pub open spec fn opt_string(t: Option<String>) -> Option<Seq<char>> {
    match t {
        Some(s) => Some(s@),
        None => None,
    }
}

pub open spec fn opt_listing(t: Option<&Vec<Listed>>) -> Option<Seq<(Seq<char>, bool)>> {
    match t {
        Some(v) => Some(listed_views(v@)),
        None => None,
    }
}

pub open spec fn outcome_view(o: Result<(), String>) -> Result<(), Seq<char>> {
    match o {
        Ok(_) => Ok(()),
        Err(e) => Err(e@),
    }
}

// ---------------------------------------------------------------------------
// The builtins that work on paths.
// ---------------------------------------------------------------------------

/// Runs `f` on each of `items[i..]` in turn, joining their outputs after `out`.
pub open spec fn sp_each(
    rs: Seq<FsReplyV>,
    sh: ShellV,
    items: Seq<Seq<char>>,
    i: int,
    out: Seq<char>,
    f: spec_fn(Seq<FsReplyV>, ShellV, Seq<char>) -> Step<Seq<char>>,
) -> Step<Seq<char>>
    decreases items.len() - i,
{
    if i < 0 || i >= items.len() {
        Step::Done(out, sh)
    } else {
        match f(rs, sh, items[i]) {
            Step::Done(o, sh2) => sp_each(rs, sh2, items, i + 1, out + o, f),
            Step::Pending(op) => Step::Pending(op),
        }
    }
}

/// `cd`: moves to an existing directory.
pub open spec fn sp_cd(rs: Seq<FsReplyV>, sh: ShellV, args: Seq<Seq<char>>) -> Step<Seq<char>> {
    let arg = if args.len() > 0 {
        args[0]
    } else {
        Seq::empty()
    };
    let path = sp_resolve(sh.cwd, arg);
    match sp_stat(rs, sh, path) {
        Step::Done(st, sh2) => if st == Some(true) {
            Step::Done(Seq::empty(), with_cwd(sh2, path))
        } else {
            Step::Done(Seq::empty(), sp_fail(sh2, "cd: "@ + arg + ": no such directory"@))
        },
        Step::Pending(o) => Step::Pending(o),
    }
}

/// The names of `es`, one per line.
pub open spec fn names_text(es: Seq<(Seq<char>, bool)>) -> Seq<char>
    decreases es.len(),
{
    if es.len() == 0 {
        Seq::empty()
    } else {
        names_text(es.drop_last()) + es.last().0 + seq!['\n']
    }
}

/// `ls` of one operand: a directory's entries, a file's own name, or a
/// failure when it is missing.
pub open spec fn sp_ls_one(rs: Seq<FsReplyV>, sh: ShellV, arg: Seq<char>) -> Step<Seq<char>> {
    let path = sp_resolve(sh.cwd, arg);
    match sp_stat(rs, sh, path) {
        Step::Done(Some(true), sh2) => match sp_list(rs, sh2, path) {
            Step::Done(l, sh3) => Step::Done(
                match l {
                    Some(es) => names_text(es),
                    None => Seq::empty(),
                },
                sh3,
            ),
            Step::Pending(o) => Step::Pending(o),
        },
        Step::Done(Some(false), sh2) => Step::Done(arg + seq!['\n'], sh2),
        Step::Done(None, sh2) => Step::Done(Seq::empty(), sp_fail(sh2, "ls: "@ + arg + ": not found"@)),
        Step::Pending(o) => Step::Pending(o),
    }
}

/// `ls`: each operand in turn, the working directory when there is none.
pub open spec fn sp_ls(rs: Seq<FsReplyV>, sh: ShellV, args: Seq<Seq<char>>) -> Step<Seq<char>> {
    sp_each(
        rs,
        sh,
        if args.len() == 0 {
            seq![Seq::empty()]
        } else {
            args
        },
        0,
        Seq::empty(),
        path_step(PathKind::Ls, Seq::empty()),
    )
}

/// `mkdir` of one operand: without `-p` an existing path is a failure.
pub open spec fn sp_mkdir_one(rs: Seq<FsReplyV>, sh: ShellV, flags: Seq<char>, arg: Seq<char>) -> Step<
    Seq<char>,
> {
    let path = sp_resolve(sh.cwd, arg);
    let create = |s: ShellV|
        match sp_change(rs, s, FsOpV::CreateDir(path)) {
            Step::Done(Ok(_), s2) => Step::Done(Seq::empty(), s2),
            Step::Done(Err(e), s2) => Step::Done(Seq::empty(), sp_fail(s2, "mkdir: "@ + e)),
            Step::Pending(o) => Step::Pending(o),
        };
    if !flags.contains('p') {
        match sp_stat(rs, sh, path) {
            Step::Done(Some(_), sh2) => Step::Done(
                Seq::empty(),
                sp_fail(sh2, "mkdir: "@ + arg + ": exists"@),
            ),
            Step::Done(None, sh2) => create(sh2),
            Step::Pending(o) => Step::Pending(o),
        }
    } else {
        create(sh)
    }
}

pub open spec fn sp_mkdir(rs: Seq<FsReplyV>, sh: ShellV, args: Seq<Seq<char>>) -> Step<Seq<char>> {
    let (flags, paths) = spec_split_flags(args);
    sp_each(
        rs,
        sh,
        paths,
        0,
        Seq::empty(),
        path_step(PathKind::Mkdir, flags),
    )
}

/// `rm` of one operand: never the root, a directory only with `-r`, and a
/// missing path is a failure unless `-f`.
pub open spec fn sp_rm_one(rs: Seq<FsReplyV>, sh: ShellV, flags: Seq<char>, arg: Seq<char>) -> Step<
    Seq<char>,
> {
    let path = sp_resolve(sh.cwd, arg);
    let recursive = flags.contains('r') || flags.contains('R');
    if path.len() == 0 {
        Step::Done(Seq::empty(), sp_fail(sh, "rm: refusing to remove root"@))
    } else {
        match sp_stat(rs, sh, path) {
            Step::Done(Some(is_dir), sh2) => if is_dir && !recursive {
                Step::Done(Seq::empty(), sp_fail(sh2, "rm: "@ + arg + ": is a directory"@))
            } else {
                match sp_change(rs, sh2, FsOpV::Delete(path)) {
                    Step::Done(Ok(_), sh3) => Step::Done(Seq::empty(), sh3),
                    Step::Done(Err(e), sh3) => Step::Done(Seq::empty(), sp_fail(sh3, "rm: "@ + e)),
                    Step::Pending(o) => Step::Pending(o),
                }
            },
            Step::Done(None, sh2) => if !flags.contains('f') {
                Step::Done(Seq::empty(), sp_fail(sh2, "rm: "@ + arg + ": not found"@))
            } else {
                Step::Done(Seq::empty(), sh2)
            },
            Step::Pending(o) => Step::Pending(o),
        }
    }
}

pub open spec fn sp_rm(rs: Seq<FsReplyV>, sh: ShellV, args: Seq<Seq<char>>) -> Step<Seq<char>> {
    let (flags, paths) = spec_split_flags(args);
    sp_each(
        rs,
        sh,
        paths,
        0,
        Seq::empty(),
        path_step(PathKind::Rm, flags),
    )
}

/// `touch` of one operand: creates it empty when it is missing.
pub open spec fn sp_touch_one(rs: Seq<FsReplyV>, sh: ShellV, arg: Seq<char>) -> Step<Seq<char>> {
    let path = sp_resolve(sh.cwd, arg);
    match sp_stat(rs, sh, path) {
        Step::Done(None, sh2) => match sp_change(rs, sh2, FsOpV::Write(path, Seq::empty())) {
            Step::Done(Ok(_), sh3) => Step::Done(Seq::empty(), sh3),
            Step::Done(Err(e), sh3) => Step::Done(Seq::empty(), sp_fail(sh3, "touch: "@ + e)),
            Step::Pending(o) => Step::Pending(o),
        },
        Step::Done(Some(_), sh2) => Step::Done(Seq::empty(), sh2),
        Step::Pending(o) => Step::Pending(o),
    }
}

pub open spec fn sp_touch(rs: Seq<FsReplyV>, sh: ShellV, args: Seq<Seq<char>>) -> Step<Seq<char>> {
    sp_each(
        rs,
        sh,
        args,
        0,
        Seq::empty(),
        path_step(PathKind::Touch, Seq::empty()),
    )
}

/// The builtins that take each operand in turn.
#[derive(Clone, Copy, Debug, PartialEq, Eq, Structural)]
pub enum PathKind {
    Ls,
    Mkdir,
    Rm,
    Touch,
}

/// What the builtin `kind`, with flag letters `flags`, does with one operand.
pub open spec fn path_step(kind: PathKind, flags: Seq<char>) -> spec_fn(
    Seq<FsReplyV>,
    ShellV,
    Seq<char>,
) -> Step<Seq<char>> {
    match kind {
        PathKind::Ls => |r: Seq<FsReplyV>, s: ShellV, a: Seq<char>| sp_ls_one(r, s, a),
        PathKind::Mkdir => |r: Seq<FsReplyV>, s: ShellV, a: Seq<char>| sp_mkdir_one(r, s, flags, a),
        PathKind::Rm => |r: Seq<FsReplyV>, s: ShellV, a: Seq<char>| sp_rm_one(r, s, flags, a),
        PathKind::Touch => |r: Seq<FsReplyV>, s: ShellV, a: Seq<char>| sp_touch_one(r, s, a),
    }
}

fn cat3(a: &str, b: &str, c: &str) -> (r: String)
    ensures
        r@ == a@ + b@ + c@,
{
    let mut m = a.to_owned();
    push_str(&mut m, b);
    push_str(&mut m, c);
    m
}

fn names_of(es: &Vec<Listed>) -> (r: String)
    ensures
        r@ == names_text(listed_views(es@)),
{
    let ghost lv = listed_views(es@);
    let mut out = String::new();
    let mut i: usize = 0;
    while i < es.len()
        invariant
            lv == listed_views(es@),
            lv.len() == es@.len(),
            i <= es.len(),
            out@ == names_text(lv.take(i as int)),
        decreases es.len() - i,
    {
        assert(lv.take(i + 1).drop_last() == lv.take(i as int));
        assert(lv[i as int].0 == es@[i as int].name@);
        let ghost before = out@;
        push_str(&mut out, es[i].name.as_str());
        crate::text::push_char(&mut out, '\n');
        assert(out@ =~= before + lv[i as int].0 + seq!['\n']);
        i += 1;
    }
    assert(lv.take(i as int) == lv);
    out
}

// ---------------------------------------------------------------------------
// `cp` and `mv`.
// ---------------------------------------------------------------------------

/// The arguments that are not options (do not start with `-`).
pub open spec fn operands(args: Seq<Seq<char>>) -> Seq<Seq<char>>
    decreases args.len(),
{
    if args.len() == 0 {
        Seq::empty()
    } else {
        let r = operands(args.drop_last());
        let a = args.last();
        if a.len() > 0 && a[0] == '-' {
            r
        } else {
            r.push(a)
        }
    }
}

/// Copies `src` to `dst`, then removes `src` when `remove_src`.
pub open spec fn sp_copy_to(
    rs: Seq<FsReplyV>,
    sh: ShellV,
    name: Seq<char>,
    arg: Seq<char>,
    src: Seq<char>,
    dst: Seq<char>,
    remove_src: bool,
) -> Step<Seq<char>> {
    match sp_read(rs, sh, src) {
        Step::Pending(o) => Step::Pending(o),
        Step::Done(None, sh2) => Step::Done(
            Seq::empty(),
            sp_fail(sh2, name + ": "@ + arg + ": read error"@),
        ),
        Step::Done(Some(c), sh2) => match sp_change(rs, sh2, FsOpV::Write(dst, c)) {
            Step::Pending(o) => Step::Pending(o),
            Step::Done(Err(x), sh3) => Step::Done(Seq::empty(), sp_fail(sh3, name + ": "@ + x)),
            Step::Done(Ok(_), sh3) => if remove_src {
                match sp_change(rs, sh3, FsOpV::Delete(src)) {
                    Step::Pending(o) => Step::Pending(o),
                    Step::Done(Err(x), sh4) => Step::Done(
                        Seq::empty(),
                        sp_fail(sh4, name + ": "@ + x),
                    ),
                    Step::Done(Ok(_), sh4) => Step::Done(Seq::empty(), sh4),
                }
            } else {
                Step::Done(Seq::empty(), sh3)
            },
        },
    }
}

/// `cp` (or `mv` when `remove_src`): a file onto a path, or into a
/// directory under its own name.
pub open spec fn sp_copy(rs: Seq<FsReplyV>, sh: ShellV, args: Seq<Seq<char>>, remove_src: bool) -> Step<
    Seq<char>,
> {
    let name = if remove_src {
        "mv"@
    } else {
        "cp"@
    };
    let ops = operands(args);
    if ops.len() != 2 {
        Step::Done(Seq::empty(), sp_fail(sh, name + ": need source and destination"@))
    } else {
        let src = sp_resolve(sh.cwd, ops[0]);
        match sp_stat(rs, sh, src) {
            Step::Pending(o) => Step::Pending(o),
            Step::Done(st, sh2) => if st != Some(false) {
                Step::Done(Seq::empty(), sp_fail(sh2, name + ": "@ + ops[0] + ": not a file"@))
            } else {
                let dst0 = sp_resolve(sh2.cwd, ops[1]);
                match sp_stat(rs, sh2, dst0) {
                    Step::Pending(o) => Step::Pending(o),
                    Step::Done(st2, sh3) => sp_copy_to(
                        rs,
                        sh3,
                        name,
                        ops[0],
                        src,
                        if st2 == Some(true) {
                            spec_normalize(dst0, spec_split_parent(src).1)
                        } else {
                            dst0
                        },
                        remove_src,
                    ),
                }
            },
        }
    }
}

// ---------------------------------------------------------------------------
// The text builtins and `test`.
// ---------------------------------------------------------------------------

/// Reads `files[i..]` as (name, text) sources after `acc`; a missing file is
/// a failure.
pub open spec fn sp_grep_sources_from(
    rs: Seq<FsReplyV>,
    sh: ShellV,
    files: Seq<Seq<char>>,
    i: int,
    acc: Seq<(Seq<char>, Seq<char>)>,
) -> Step<Option<Seq<(Seq<char>, Seq<char>)>>>
    decreases files.len() - i,
{
    if i < 0 || i >= files.len() {
        Step::Done(Some(acc), sh)
    } else {
        match sp_read(rs, sh, sp_resolve(sh.cwd, files[i])) {
            Step::Pending(o) => Step::Pending(o),
            Step::Done(Some(c), sh2) => sp_grep_sources_from(rs, sh2, files, i + 1, acc.push((files[i], c))),
            Step::Done(None, sh2) => Step::Done(
                None,
                sp_fail(sh2, "grep: "@ + files[i] + ": not found"@),
            ),
        }
    }
}

/// Some line of some source is selected.
pub open spec fn grep_matched(
    srcs: Seq<(Seq<char>, Seq<char>)>,
    needle: Seq<char>,
    opts: GrepOptions,
) -> bool {
    exists|k: int| 0 <= k < srcs.len() && any_selected(lines(#[trigger] srcs[k].1), needle, opts)
}

/// `grep`: the selected lines of the files (or of stdin); status 0 when a
/// line was selected, 1 when none was.
pub open spec fn sp_grep(rs: Seq<FsReplyV>, sh: ShellV, args: Seq<Seq<char>>, stdin: Seq<char>) -> Step<
    Seq<char>,
> {
    let (flags, rest) = spec_split_flags(args);
    let opts = grep_options_of(flags);
    if rest.len() == 0 {
        Step::Done(Seq::empty(), sp_fail(sh, "grep: missing pattern"@))
    } else {
        let files = rest.drop_first();
        let needle = grep_needle(rest[0], opts);
        let sources = if files.len() == 0 {
            Step::Done(Some(seq![(Seq::empty(), stdin)]), sh)
        } else {
            sp_grep_sources_from(rs, sh, files, 0, Seq::empty())
        };
        match sources {
            Step::Pending(o) => Step::Pending(o),
            Step::Done(None, sh2) => Step::Done(Seq::empty(), sh2),
            Step::Done(Some(srcs), sh2) => Step::Done(
                grep_sources(srcs, needle, opts, srcs.len() > 1),
                with_status(
                    sh2,
                    if grep_matched(srcs, needle, opts) {
                        0
                    } else {
                        1
                    },
                ),
            ),
        }
    }
}

/// `head` (or `tail`): the first (or last) lines, ten unless `-n` says.
pub open spec fn sp_head_tail(
    rs: Seq<FsReplyV>,
    sh: ShellV,
    args: Seq<Seq<char>>,
    stdin: Seq<char>,
    head: bool,
) -> Step<Seq<char>> {
    let (count, files) = spec_parse_count(args, 0, 10, Seq::empty());
    match sp_read_all(
        rs,
        sh,
        files,
        stdin,
        if head {
            "head"@
        } else {
            "tail"@
        },
    ) {
        Step::Pending(o) => Step::Pending(o),
        Step::Done(None, sh2) => Step::Done(Seq::empty(), sh2),
        Step::Done(Some(c), sh2) => Step::Done(spec_head_tail(c, count as nat, head), sh2),
    }
}

/// `wc`: line, word and byte counts.
pub open spec fn sp_wc(rs: Seq<FsReplyV>, sh: ShellV, args: Seq<Seq<char>>, stdin: Seq<char>) -> Step<
    Seq<char>,
> {
    let (flags, files) = spec_split_flags(args);
    match sp_read_all(rs, sh, files, stdin, "wc"@) {
        Step::Pending(o) => Step::Pending(o),
        Step::Done(None, sh2) => Step::Done(Seq::empty(), sh2),
        Step::Done(Some(c), sh2) => Step::Done(spec_wc(c, flags), sh2),
    }
}

/// What `test` settles on from its arguments alone.
pub enum TestOutcome {
    Answer(bool),
    Ask(Seq<char>, StatQuery),
    Refuse(Seq<char>),
}

pub open spec fn test_view(r: TestStep) -> TestOutcome {
    match r {
        TestStep::Done(b) => TestOutcome::Answer(b),
        TestStep::Stat { path, query } => TestOutcome::Ask(path@, query),
        TestStep::Fail(m) => TestOutcome::Refuse(m@),
    }
}

pub open spec fn test_operands_outcome(a: Seq<Seq<char>>) -> TestOutcome {
    if a.len() == 0 {
        TestOutcome::Answer(false)
    } else if a.len() == 1 {
        TestOutcome::Answer(a[0].len() > 0)
    } else if a.len() == 2 {
        if a[0] == "-z"@ {
            TestOutcome::Answer(a[1].len() == 0)
        } else if a[0] == "-n"@ {
            TestOutcome::Answer(a[1].len() > 0)
        } else if a[0] == "-e"@ {
            TestOutcome::Ask(a[1], StatQuery::Exists)
        } else if a[0] == "-f"@ {
            TestOutcome::Ask(a[1], StatQuery::IsFile)
        } else if a[0] == "-d"@ {
            TestOutcome::Ask(a[1], StatQuery::IsDir)
        } else {
            TestOutcome::Refuse("test: "@ + a[0] + ": unary operator expected"@)
        }
    } else if a.len() == 3 {
        if a[1] == "="@ || a[1] == "=="@ {
            TestOutcome::Answer(a[0] == a[2])
        } else if a[1] == "!="@ {
            TestOutcome::Answer(a[0] != a[2])
        } else if int_test_op(a[1]) is Some {
            TestOutcome::Answer(
                match (parse_i64(a[0]), parse_i64(a[2])) {
                    (Some(x), Some(y)) => int_op_holds(int_test_op(a[1])->0, x, y),
                    _ => false,
                },
            )
        } else {
            TestOutcome::Refuse("test: "@ + a[1] + ": binary operator expected"@)
        }
    } else {
        TestOutcome::Refuse("test: too many arguments"@)
    }
}

/// What `test` (or `[` when `bracket`) settles on from its arguments.
pub open spec fn test_outcome(bracket: bool, args: Seq<Seq<char>>) -> TestOutcome {
    if bracket {
        if args.len() == 0 || args.last() != "]"@ {
            TestOutcome::Refuse("[: missing `]'"@)
        } else {
            test_operands_outcome(args.drop_last())
        }
    } else {
        test_operands_outcome(args)
    }
}

proof fn lemma_test_outcome(bracket: bool, args: Seq<Seq<char>>, r: TestStep)
    requires
        spec_test_step(bracket, args, r),
    ensures
        test_view(r) == test_outcome(bracket, args),
{
}

/// `test`: status 0 when the condition holds, 1 when it does not.
pub open spec fn sp_test(rs: Seq<FsReplyV>, sh: ShellV, bracket: bool, args: Seq<Seq<char>>) -> Step<
    Seq<char>,
> {
    match test_outcome(bracket, args) {
        TestOutcome::Answer(b) => Step::Done(
            Seq::empty(),
            with_status(
                sh,
                if b {
                    0
                } else {
                    1
                },
            ),
        ),
        TestOutcome::Refuse(m) => Step::Done(Seq::empty(), sp_fail(sh, m)),
        TestOutcome::Ask(p, q) => match sp_stat(rs, sh, sp_resolve(sh.cwd, p)) {
            Step::Pending(o) => Step::Pending(o),
            Step::Done(st, sh2) => Step::Done(
                Seq::empty(),
                with_status(
                    sh2,
                    if spec_stat_answer(q, st) {
                        0
                    } else {
                        1
                    },
                ),
            ),
        },
    }
}

/// The builtin `cmd` on `args`, reading `stdin` where it reads input.
pub open spec fn sp_builtin(
    rs: Seq<FsReplyV>,
    sh: ShellV,
    cmd: Seq<char>,
    args: Seq<Seq<char>>,
    stdin: Seq<char>,
) -> Step<Seq<char>> {
    if cmd == "echo"@ {
        Step::Done(spec_echo(args), sh)
    } else if cmd == "true"@ {
        Step::Done(Seq::empty(), sh)
    } else if cmd == "false"@ {
        Step::Done(Seq::empty(), with_status(sh, 1))
    } else if cmd == "pwd"@ {
        Step::Done(seq!['/'] + sh.cwd + seq!['\n'], sh)
    } else if cmd == "cd"@ {
        sp_cd(rs, sh, args)
    } else if cmd == "ls"@ {
        sp_ls(rs, sh, args)
    } else if cmd == "cat"@ {
        match sp_read_all(rs, sh, args, stdin, "cat"@) {
            Step::Pending(o) => Step::Pending(o),
            Step::Done(t, sh2) => Step::Done(
                match t {
                    Some(c) => c,
                    None => Seq::empty(),
                },
                sh2,
            ),
        }
    } else if cmd == "mkdir"@ {
        sp_mkdir(rs, sh, args)
    } else if cmd == "rm"@ {
        sp_rm(rs, sh, args)
    } else if cmd == "touch"@ {
        sp_touch(rs, sh, args)
    } else if cmd == "mv"@ {
        sp_copy(rs, sh, args, true)
    } else if cmd == "cp"@ {
        sp_copy(rs, sh, args, false)
    } else if cmd == "grep"@ {
        sp_grep(rs, sh, args, stdin)
    } else if cmd == "head"@ {
        sp_head_tail(rs, sh, args, stdin, true)
    } else if cmd == "tail"@ {
        sp_head_tail(rs, sh, args, stdin, false)
    } else if cmd == "wc"@ {
        sp_wc(rs, sh, args, stdin)
    } else if cmd == "test"@ || cmd == "["@ {
        sp_test(rs, sh, cmd == "["@, args)
    } else {
        Step::Done(Seq::empty(), sp_fail(sh, cmd + ": command not found"@))
    }
}

fn operands_of(args: &[String]) -> (r: Vec<String>)
    ensures
        arg_views(r@) == operands(arg_views(args@)),
{
    let ghost av = arg_views(args@);
    let mut r: Vec<String> = Vec::new();
    let mut i: usize = 0;
    while i < args.len()
        invariant
            av == arg_views(args@),
            av.len() == args@.len(),
            i <= args.len(),
            arg_views(r@) == operands(av.take(i as int)),
        decreases args.len() - i,
    {
        assert(av.take(i + 1).drop_last() == av.take(i as int));
        assert(av.take(i + 1).last() == args@[i as int]@);
        let a = chars_of(args[i].as_str());
        if !(a.len() > 0 && a[0] == '-') {
            let ghost before = arg_views(r@);
            r.push(args[i].clone());
            assert(arg_views(r@) =~= before.push(a@));
        }
        i += 1;
    }
    assert(av.take(args.len() as int) == av);
    r
}

fn cat4(a: &str, b: &str, c: &str, d: &str) -> (r: String)
    ensures
        r@ == a@ + b@ + c@ + d@,
{
    let mut m = a.to_owned();
    push_str(&mut m, b);
    push_str(&mut m, c);
    push_str(&mut m, d);
    m
}

// ---------------------------------------------------------------------------
// Simple commands.
// ---------------------------------------------------------------------------

/// Performs the assignments `assigns[i..]` in turn.
pub open spec fn sp_assign_from(sh: ShellV, assigns: Seq<(Seq<char>, WordV)>, i: int) -> ShellV
    decreases assigns.len() - i,
{
    if i < 0 || i >= assigns.len() {
        sh
    } else {
        sp_assign_from(with_var(sh, assigns[i].0, sp_expand(sh, assigns[i].1)), assigns, i + 1)
    }
}

/// The words, each expanded.
pub open spec fn expand_all(sh: ShellV, ws: Seq<WordV>) -> Seq<Seq<char>> {
    ws.map_values(|w: WordV| sp_expand(sh, w))
}

/// The input of a command: each `<` redirect of `redirects[i..]` in turn
/// replaces `stdin` with a file's text; a missing file is a failure.
pub open spec fn sp_stdin_from(
    rs: Seq<FsReplyV>,
    sh: ShellV,
    redirects: Seq<RedirectV>,
    i: int,
    stdin: Seq<char>,
) -> Step<Option<Seq<char>>>
    decreases redirects.len() - i,
{
    if i < 0 || i >= redirects.len() {
        Step::Done(Some(stdin), sh)
    } else {
        match redirects[i] {
            RedirectV::In(w) => {
                let path = sp_resolve(sh.cwd, sp_expand(sh, w));
                match sp_read(rs, sh, path) {
                    Step::Pending(o) => Step::Pending(o),
                    Step::Done(Some(c), sh2) => sp_stdin_from(rs, sh2, redirects, i + 1, c),
                    Step::Done(None, sh2) => Step::Done(None, sp_fail(sh2, path + ": No such file"@)),
                }
            },
            _ => sp_stdin_from(rs, sh, redirects, i + 1, stdin),
        }
    }
}

/// The first output redirect, and whether it appends.
pub open spec fn first_out(redirects: Seq<RedirectV>) -> Option<(WordV, bool)>
    decreases redirects.len(),
{
    if redirects.len() == 0 {
        None
    } else {
        match redirects[0] {
            RedirectV::Out(w) => Some((w, false)),
            RedirectV::Append(w) => Some((w, true)),
            RedirectV::In(_) => first_out(redirects.drop_first()),
        }
    }
}

/// A simple command: assignments alone set variables; otherwise the
/// builtin named by the first word runs on the others, its output going to
/// the first output redirect when there is one (and then nothing is
/// returned).
pub open spec fn sp_run_simple(rs: Seq<FsReplyV>, sh: ShellV, s: SimpleV, stdin: Seq<char>) -> Step<
    Seq<char>,
> {
    if s.words.len() == 0 {
        Step::Done(Seq::empty(), with_status(sp_assign_from(sh, s.assignments, 0), 0))
    } else {
        let argv = expand_all(sh, s.words);
        match sp_stdin_from(rs, sh, s.redirects, 0, stdin) {
            Step::Pending(o) => Step::Pending(o),
            Step::Done(None, sh2) => Step::Done(Seq::empty(), sh2),
            Step::Done(Some(input), sh2) => match sp_builtin(
                rs,
                with_status(sh2, 0),
                argv[0],
                argv.drop_first(),
                input,
            ) {
                Step::Pending(o) => Step::Pending(o),
                Step::Done(out, sh3) => match first_out(s.redirects) {
                    None => Step::Done(out, sh3),
                    Some((w, append)) => match sp_write_file(
                        rs,
                        sh3,
                        sp_resolve(sh3.cwd, sp_expand(sh3, w)),
                        out,
                        append,
                    ) {
                        Step::Pending(o) => Step::Pending(o),
                        Step::Done(_, sh4) => Step::Done(Seq::empty(), sh4),
                    },
                },
            },
        }
    }
}

fn first_out_of(redirects: &Vec<Redirect>) -> (r: Option<(&Word, bool)>)
    ensures
        first_out(redirects@.map_values(|r: Redirect| redirect_view(r))) == match r {
            Some((w, a)) => Some((w@, a)),
            None => None,
        },
{
    let ghost v = redirects@.map_values(|r: Redirect| redirect_view(r));
    let mut i: usize = 0;
    assert(v.skip(0) == v);
    while i < redirects.len()
        invariant
            v == redirects@.map_values(|r: Redirect| redirect_view(r)),
            i <= redirects.len(),
            first_out(v) == first_out(v.skip(i as int)),
        decreases redirects.len() - i,
    {
        assert(v.skip(i as int)[0] == redirect_view(redirects@[i as int]));
        assert(v.skip(i as int).drop_first() == v.skip(i + 1));
        match &redirects[i] {
            Redirect::Out(w) => {
                return Some((w, false));
            },
            Redirect::Append(w) => {
                return Some((w, true));
            },
            Redirect::In(_) => {},
        }
        i += 1;
    }
    assert(v.skip(i as int).len() == 0);
    None
}

// ---------------------------------------------------------------------------
// Commands.
// ---------------------------------------------------------------------------

/// How many items the loop over `n` goes through.
pub open spec fn node_len(n: NodeV) -> int {
    match n {
        NodeV::Sequence(items) => items.len() as int,
        NodeV::Pipeline(cmds) => cmds.len() as int,
        NodeV::If { branches, .. } => branches.len() as int,
        NodeV::For { items, .. } => items.len() as int,
        _ => 0,
    }
}

/// Runs `n`: output goes to stdout, failures to stderr, and the status is
/// that of the last command run.
pub open spec fn sp_eval(rs: Seq<FsReplyV>, sh: ShellV, n: NodeV) -> Step<()>
    decreases n, 2int, 0int,
{
    match n {
        NodeV::Sequence(_) => sp_seq_from(rs, sh, n, 0),
        NodeV::And(a, b) => match sp_eval(rs, sh, *a) {
            Step::Pending(o) => Step::Pending(o),
            Step::Done(_, sh2) => if sh2.status == 0 {
                sp_eval(rs, sh2, *b)
            } else {
                Step::Done((), sh2)
            },
        },
        NodeV::Or(a, b) => match sp_eval(rs, sh, *a) {
            Step::Pending(o) => Step::Pending(o),
            Step::Done(_, sh2) => if sh2.status != 0 {
                sp_eval(rs, sh2, *b)
            } else {
                Step::Done((), sh2)
            },
        },
        NodeV::Pipeline(_) => match sp_pipe_from(rs, sh, n, 0, Seq::empty()) {
            Step::Pending(o) => Step::Pending(o),
            Step::Done(out, sh2) => Step::Done((), with_stdout(sh2, sh2.stdout + out)),
        },
        NodeV::Simple(s) => match sp_run_simple(rs, sh, s, Seq::empty()) {
            Step::Pending(o) => Step::Pending(o),
            Step::Done(out, sh2) => Step::Done((), with_stdout(sh2, sh2.stdout + out)),
        },
        NodeV::If { .. } => sp_if_from(rs, sh, n, 0),
        NodeV::For { .. } => sp_for_from(rs, sh, n, 0),
        NodeV::While { .. } => sp_while_from(rs, sh, n, 0),
    }
}

/// Runs the items `i..` of the sequence `n` one after the other.
pub open spec fn sp_seq_from(rs: Seq<FsReplyV>, sh: ShellV, n: NodeV, i: int) -> Step<()>
    decreases n, 1int, node_len(n) - i,
{
    match n {
        NodeV::Sequence(items) => if i < 0 || i >= items.len() {
            Step::Done((), sh)
        } else {
            match sp_eval(rs, sh, items[i]) {
                Step::Pending(o) => Step::Pending(o),
                Step::Done(_, sh2) => sp_seq_from(rs, sh2, n, i + 1),
            }
        },
        _ => Step::Done((), sh),
    }
}

/// Runs the stages `i..` of the pipeline `n`, each reading what the one
/// before it printed (`input` for stage `i`); the last stage's output.
pub open spec fn sp_pipe_from(rs: Seq<FsReplyV>, sh: ShellV, n: NodeV, i: int, input: Seq<char>) -> Step<
    Seq<char>,
>
    decreases n, 1int, node_len(n) - i,
{
    match n {
        NodeV::Pipeline(cmds) => if i < 0 || i >= cmds.len() {
            Step::Done(input, sh)
        } else {
            match sp_capture(rs, sh, cmds[i], input) {
                Step::Pending(o) => Step::Pending(o),
                Step::Done(out, sh2) => sp_pipe_from(rs, sh2, n, i + 1, out),
            }
        },
        _ => Step::Done(input, sh),
    }
}

/// Runs `n` and returns what it prints instead of printing it. Only a
/// simple command reads `stdin`.
pub open spec fn sp_capture(rs: Seq<FsReplyV>, sh: ShellV, n: NodeV, stdin: Seq<char>) -> Step<
    Seq<char>,
>
    decreases n, 3int, 0int,
{
    match n {
        NodeV::Simple(s) => sp_run_simple(rs, sh, s, stdin),
        _ => match sp_eval(rs, with_stdout(sh, Seq::empty()), n) {
            Step::Pending(o) => Step::Pending(o),
            Step::Done(_, sh2) => Step::Done(sh2.stdout, with_stdout(sh2, sh.stdout)),
        },
    }
}

/// Tries the branches `i..` of the `if` command `n`: the body of the first
/// whose condition succeeds, else the `else` branch.
pub open spec fn sp_if_from(rs: Seq<FsReplyV>, sh: ShellV, n: NodeV, i: int) -> Step<()>
    decreases n, 1int, node_len(n) - i,
{
    match n {
        NodeV::If { branches, else_branch } => if i < 0 || i >= branches.len() {
            match else_branch {
                Some(b) => sp_eval(rs, sh, *b),
                None => Step::Done((), sh),
            }
        } else {
            match sp_eval(rs, sh, branches[i].0) {
                Step::Pending(o) => Step::Pending(o),
                Step::Done(_, sh2) => if sh2.status == 0 {
                    sp_eval(rs, sh2, branches[i].1)
                } else {
                    sp_if_from(rs, sh2, n, i + 1)
                },
            }
        },
        _ => Step::Done((), sh),
    }
}

/// Runs the body of the `for` command `n` for each of its items `i..`,
/// with its variable set to the item.
pub open spec fn sp_for_from(rs: Seq<FsReplyV>, sh: ShellV, n: NodeV, i: int) -> Step<()>
    decreases n, 1int, node_len(n) - i,
{
    match n {
        NodeV::For { var, items, body } => if i < 0 || i >= items.len() {
            Step::Done((), sh)
        } else {
            match sp_eval(rs, with_var(sh, var, sp_expand(sh, items[i])), *body) {
                Step::Pending(o) => Step::Pending(o),
                Step::Done(_, sh2) => sp_for_from(rs, sh2, n, i + 1),
            }
        },
        _ => Step::Done((), sh),
    }
}

/// The `while` command `n` after `iters` rounds: its body runs while its
/// condition succeeds; after the limit of rounds it stops with a note on
/// stderr.
pub open spec fn sp_while_from(rs: Seq<FsReplyV>, sh: ShellV, n: NodeV, iters: nat) -> Step<()>
    decreases n, 1int, MAX_LOOP_ITERATIONS - iters,
{
    match n {
        NodeV::While { cond, body } => match sp_eval(rs, sh, *cond) {
            Step::Pending(o) => Step::Pending(o),
            Step::Done(_, sh2) => if sh2.status != 0 {
                Step::Done((), sh2)
            } else {
                match sp_eval(rs, sh2, *body) {
                    Step::Pending(o) => Step::Pending(o),
                    Step::Done(_, sh3) => if iters + 1 >= MAX_LOOP_ITERATIONS {
                        Step::Done(
                            (),
                            ShellV { stderr: sh3.stderr + "while: iteration limit reached\n"@, ..sh3 },
                        )
                    } else {
                        sp_while_from(rs, sh3, n, iters + 1)
                    },
                }
            },
        },
        _ => Step::Done((), sh),
    }
}

proof fn lemma_nodes_view_index(s: Seq<Node>, i: int)
    requires
        0 <= i < s.len(),
    ensures
        nodes_view(s).len() == s.len(),
        nodes_view(s)[i] == node_view(s[i]),
    decreases s.len(),
{
    lemma_nodes_view_len(s);
    if i < s.len() - 1 {
        lemma_nodes_view_index(s.drop_last(), i);
    }
}

proof fn lemma_nodes_view_len(s: Seq<Node>)
    ensures
        nodes_view(s).len() == s.len(),
    decreases s.len(),
{
    if s.len() > 0 {
        lemma_nodes_view_len(s.drop_last());
    }
}

proof fn lemma_branches_view_index(s: Seq<(Node, Node)>, i: int)
    requires
        0 <= i < s.len(),
    ensures
        branches_view(s).len() == s.len(),
        branches_view(s)[i] == (node_view(s[i].0), node_view(s[i].1)),
    decreases s.len(),
{
    lemma_branches_view_len(s);
    if i < s.len() - 1 {
        lemma_branches_view_index(s.drop_last(), i);
    }
}

proof fn lemma_branches_view_len(s: Seq<(Node, Node)>)
    ensures
        branches_view(s).len() == s.len(),
    decreases s.len(),
{
    if s.len() > 0 {
        lemma_branches_view_len(s.drop_last());
    }
}

fn find_named(es: &Vec<Listed>, name: &str) -> (r: Option<bool>)
    ensures
        r == first_named(listed_views(es@), name@),
{
    let ghost lv = listed_views(es@);
    let mut i: usize = 0;
    assert(lv.skip(0) == lv);
    while i < es.len()
        invariant
            lv == listed_views(es@),
            lv.len() == es@.len(),
            i <= es.len(),
            first_named(lv, name@) == first_named(lv.skip(i as int), name@),
        decreases es.len() - i,
    {
        assert(lv.skip(i as int)[0] == (es@[i as int].name@, es@[i as int].is_dir));
        assert(lv.skip(i as int).drop_first() == lv.skip(i + 1));
        if same_str(&es[i].name, name) {
            return Some(es[i].is_dir);
        }
        i += 1;
    }
    assert(lv.skip(i as int).len() == 0);
    None
}

impl Shell {
    fn read_file<'a>(&mut self, rs: &'a [FsReply], path: &str) -> (r: Result<Option<&'a String>, FsOp>)
        ensures
            match r {
                Ok(t) => sp_read(reply_views(rs@), old(self)@, path@) == Step::Done(opt_text(t), final(self)@),
                Err(o) => sp_read(reply_views(rs@), old(self)@, path@) == Step::<Option<Seq<char>>>::Pending(o@),
            },
            final(self).status == old(self).status,
    {
        match self.request(rs, FsOp::Read(path.to_owned())) {
            Ok(FsReply::Text(t)) => match t {
                Some(s) => Ok(Some(s)),
                None => Ok(None),
            },
            Ok(_) => Ok(None),
            Err(o) => Err(o),
        }
    }

    fn list<'a>(&mut self, rs: &'a [FsReply], path: &str) -> (r: Result<Option<&'a Vec<Listed>>, FsOp>)
        ensures
            match r {
                Ok(t) => sp_list(reply_views(rs@), old(self)@, path@) == Step::Done(opt_listing(t), final(self)@),
                Err(o) => sp_list(reply_views(rs@), old(self)@, path@) == Step::<Option<Seq<(Seq<char>, bool)>>>::Pending(o@),
            },
            final(self).status == old(self).status,
    {
        match self.request(rs, FsOp::List(path.to_owned())) {
            Ok(FsReply::Listing(t)) => match t {
                Some(v) => Ok(Some(v)),
                None => Ok(None),
            },
            Ok(_) => Ok(None),
            Err(o) => Err(o),
        }
    }

    fn change<'a>(&mut self, rs: &'a [FsReply], op: FsOp) -> (r: Result<Result<(), String>, FsOp>)
        ensures
            match r {
                Ok(t) => sp_change(reply_views(rs@), old(self)@, op@) == Step::Done(outcome_view(t), final(self)@),
                Err(o) => sp_change(reply_views(rs@), old(self)@, op@) == Step::<Result<(), Seq<char>>>::Pending(o@),
            },
            final(self).status == old(self).status,
    {
        match self.request(rs, op) {
            Ok(FsReply::Outcome(t)) => match t {
                Ok(_) => Ok(Ok(())),
                Err(e) => Ok(Err(e.clone())),
            },
            Ok(_) => Ok(Err(String::new())),
            Err(o) => Err(o),
        }
    }

    fn stat(&mut self, rs: &[FsReply], path: &str) -> (r: Result<Option<bool>, FsOp>)
        ensures
            match r {
                Ok(t) => sp_stat(reply_views(rs@), old(self)@, path@) == Step::Done(t, final(self)@),
                Err(o) => sp_stat(reply_views(rs@), old(self)@, path@) == Step::<Option<bool>>::Pending(o@),
            },
            final(self).status == old(self).status,
    {
        if path.is_empty() {
            return Ok(Some(true));
        }
        let (parent, name) = split_parent(path);
        match self.list(rs, parent.as_str()) {
            Ok(Some(es)) => Ok(find_named(es, name.as_str())),
            Ok(None) => Ok(None),
            Err(o) => Err(o),
        }
    }

    fn read_all(&mut self, rs: &[FsReply], files: &[String], stdin: String, cmd: &str) -> (r: Result<
        Option<String>,
        FsOp,
    >)
        requires
            status_ok(old(self)@),
        ensures
            match r {
                Ok(t) => sp_read_all(reply_views(rs@), old(self)@, arg_views(files@), stdin@, cmd@)
                    == Step::Done(opt_string(t), final(self)@),
                Err(o) => sp_read_all(reply_views(rs@), old(self)@, arg_views(files@), stdin@, cmd@)
                    == Step::<Option<Seq<char>>>::Pending(o@),
            },
            status_ok(final(self)@),
    {
        if files.len() == 0 {
            return Ok(Some(stdin));
        }
        let ghost rv = reply_views(rs@);
        let ghost fv = arg_views(files@);
        let ghost sh0 = self@;
        let mut out = String::new();
        let mut i: usize = 0;
        while i < files.len()
            invariant
                rv == reply_views(rs@),
                fv == arg_views(files@),
                fv.len() == files@.len(),
                fv.len() > 0,
                sh0 == old(self)@,
                i <= files.len(),
                status_ok(self@),
                sp_read_all_from(rv, sh0, fv, cmd@, 0, Seq::empty()) == sp_read_all_from(
                    rv,
                    self@,
                    fv,
                    cmd@,
                    i as int,
                    out@,
                ),
            decreases files.len() - i,
        {
            assert(fv[i as int] == files@[i as int]@);
            let path = self.resolve(files[i].as_str());
            match self.read_file(rs, path.as_str()) {
                Ok(Some(c)) => push_str(&mut out, c.as_str()),
                Ok(None) => {
                    let mut m = cmd.to_owned();
                    push_str(&mut m, ": ");
                    push_str(&mut m, files[i].as_str());
                    push_str(&mut m, ": not found");
                    self.fail(m.as_str());
                    return Ok(None);
                },
                Err(o) => {
                    return Err(o);
                },
            }
            i += 1;
        }
        Ok(Some(out))
    }

    fn write_new(&mut self, rs: &[FsReply], path: &str, content: String) -> (r: Result<(), FsOp>)
        requires
            status_ok(old(self)@),
        ensures
            match r {
                Ok(_) => sp_write_new(reply_views(rs@), old(self)@, path@, content@) == Step::Done(
                    (),
                    final(self)@,
                ),
                Err(o) => sp_write_new(reply_views(rs@), old(self)@, path@, content@) == Step::<
                    (),
                >::Pending(o@),
            },
            status_ok(final(self)@),
    {
        match self.change(rs, FsOp::Write(path.to_owned(), content)) {
            Ok(Ok(())) => Ok(()),
            Ok(Err(e)) => {
                let mut m = path.to_owned();
                push_str(&mut m, ": ");
                push_str(&mut m, e.as_str());
                self.fail(m.as_str());
                Ok(())
            },
            Err(o) => Err(o),
        }
    }

    fn write_file(&mut self, rs: &[FsReply], path: &str, content: &str, append: bool) -> (r: Result<
        (),
        FsOp,
    >)
        requires
            status_ok(old(self)@),
        ensures
            match r {
                Ok(_) => sp_write_file(reply_views(rs@), old(self)@, path@, content@, append)
                    == Step::Done((), final(self)@),
                Err(o) => sp_write_file(reply_views(rs@), old(self)@, path@, content@, append)
                    == Step::<()>::Pending(o@),
            },
            status_ok(final(self)@),
    {
        let mut full = String::new();
        if append {
            match self.read_file(rs, path) {
                Ok(Some(e)) => push_str(&mut full, e.as_str()),
                Ok(None) => {},
                Err(o) => {
                    return Err(o);
                },
            }
        }
        push_str(&mut full, content);
        assert(Seq::<char>::empty() + content@ =~= content@);
        self.write_new(rs, path, full)
    }

    fn ls_one(&mut self, rs: &[FsReply], arg: &str) -> (r: Result<String, FsOp>)
        requires
            status_ok(old(self)@),
        ensures
            match r {
                Ok(o) => sp_ls_one(reply_views(rs@), old(self)@, arg@) == Step::Done(o@, final(self)@),
                Err(op) => sp_ls_one(reply_views(rs@), old(self)@, arg@) == Step::<Seq<char>>::Pending(op@),
            },
            status_ok(final(self)@),
    {
        let path = self.resolve(arg);
        match self.stat(rs, path.as_str()) {
            Err(o) => Err(o),
            Ok(Some(true)) => match self.list(rs, path.as_str()) {
                Err(o) => Err(o),
                Ok(Some(es)) => Ok(names_of(es)),
                Ok(None) => Ok(String::new()),
            },
            Ok(Some(false)) => {
                let mut o = arg.to_owned();
                crate::text::push_char(&mut o, '\n');
                assert(o@ =~= arg@ + seq!['\n']);
                Ok(o)
            },
            Ok(None) => {
                let m = cat3("ls: ", arg, ": not found");
                self.fail(m.as_str());
                Ok(String::new())
            },
        }
    }

    fn mkdir_one(&mut self, rs: &[FsReply], flags: &str, arg: &str) -> (r: Result<String, FsOp>)
        requires
            status_ok(old(self)@),
        ensures
            match r {
                Ok(o) => sp_mkdir_one(reply_views(rs@), old(self)@, flags@, arg@) == Step::Done(
                    o@,
                    final(self)@,
                ),
                Err(op) => sp_mkdir_one(reply_views(rs@), old(self)@, flags@, arg@) == Step::<
                    Seq<char>,
                >::Pending(op@),
            },
            status_ok(final(self)@),
    {
        let path = self.resolve(arg);
        let fv = chars_of(flags);
        if !has_char(fv.as_slice(), 'p') {
            match self.stat(rs, path.as_str()) {
                Err(o) => {
                    return Err(o);
                },
                Ok(Some(_)) => {
                    let m = cat3("mkdir: ", arg, ": exists");
                    self.fail(m.as_str());
                    return Ok(String::new());
                },
                Ok(None) => {},
            }
        }
        match self.change(rs, FsOp::CreateDir(path)) {
            Err(o) => Err(o),
            Ok(Ok(())) => Ok(String::new()),
            Ok(Err(e)) => {
                let m = cat3("mkdir: ", e.as_str(), "");
                proof {
                    reveal_strlit("");
                    assert(m@ =~= "mkdir: "@ + e@);
                }
                self.fail(m.as_str());
                Ok(String::new())
            },
        }
    }

    fn rm_one(&mut self, rs: &[FsReply], flags: &str, arg: &str) -> (r: Result<String, FsOp>)
        requires
            status_ok(old(self)@),
        ensures
            match r {
                Ok(o) => sp_rm_one(reply_views(rs@), old(self)@, flags@, arg@) == Step::Done(
                    o@,
                    final(self)@,
                ),
                Err(op) => sp_rm_one(reply_views(rs@), old(self)@, flags@, arg@) == Step::<
                    Seq<char>,
                >::Pending(op@),
            },
            status_ok(final(self)@),
    {
        let path = self.resolve(arg);
        let fv = chars_of(flags);
        let recursive = has_char(fv.as_slice(), 'r') || has_char(fv.as_slice(), 'R');
        if path.as_str().is_empty() {
            self.fail("rm: refusing to remove root");
            return Ok(String::new());
        }
        match self.stat(rs, path.as_str()) {
            Err(o) => Err(o),
            Ok(Some(is_dir)) => {
                if is_dir && !recursive {
                    let m = cat3("rm: ", arg, ": is a directory");
                    self.fail(m.as_str());
                    Ok(String::new())
                } else {
                    match self.change(rs, FsOp::Delete(path)) {
                        Err(o) => Err(o),
                        Ok(Ok(())) => Ok(String::new()),
                        Ok(Err(e)) => {
                            let m = cat3("rm: ", e.as_str(), "");
                            proof {
                                reveal_strlit("");
                                assert(m@ =~= "rm: "@ + e@);
                            }
                            self.fail(m.as_str());
                            Ok(String::new())
                        },
                    }
                }
            },
            Ok(None) => {
                if !has_char(fv.as_slice(), 'f') {
                    let m = cat3("rm: ", arg, ": not found");
                    self.fail(m.as_str());
                }
                Ok(String::new())
            },
        }
    }

    fn touch_one(&mut self, rs: &[FsReply], arg: &str) -> (r: Result<String, FsOp>)
        requires
            status_ok(old(self)@),
        ensures
            match r {
                Ok(o) => sp_touch_one(reply_views(rs@), old(self)@, arg@) == Step::Done(o@, final(self)@),
                Err(op) => sp_touch_one(reply_views(rs@), old(self)@, arg@) == Step::<Seq<char>>::Pending(op@),
            },
            status_ok(final(self)@),
    {
        let path = self.resolve(arg);
        match self.stat(rs, path.as_str()) {
            Err(o) => Err(o),
            Ok(Some(_)) => Ok(String::new()),
            Ok(None) => match self.change(rs, FsOp::Write(path, String::new())) {
                Err(o) => Err(o),
                Ok(Ok(())) => Ok(String::new()),
                Ok(Err(e)) => {
                    let m = cat3("touch: ", e.as_str(), "");
                    proof {
                        reveal_strlit("");
                        assert(m@ =~= "touch: "@ + e@);
                    }
                    self.fail(m.as_str());
                    Ok(String::new())
                },
            },
        }
    }

    fn path_one(&mut self, rs: &[FsReply], kind: PathKind, flags: &str, arg: &str) -> (r: Result<
        String,
        FsOp,
    >)
        requires
            status_ok(old(self)@),
        ensures
            match r {
                Ok(o) => (path_step(kind, flags@))(reply_views(rs@), old(self)@, arg@) == Step::Done(
                    o@,
                    final(self)@,
                ),
                Err(op) => (path_step(kind, flags@))(reply_views(rs@), old(self)@, arg@)
                    == Step::<Seq<char>>::Pending(op@),
            },
            status_ok(final(self)@),
    {
        match kind {
            PathKind::Ls => self.ls_one(rs, arg),
            PathKind::Mkdir => self.mkdir_one(rs, flags, arg),
            PathKind::Rm => self.rm_one(rs, flags, arg),
            PathKind::Touch => self.touch_one(rs, arg),
        }
    }

    /// Runs the builtin `kind` on each of `items` in turn.
    fn each(&mut self, rs: &[FsReply], kind: PathKind, flags: &str, items: &[String]) -> (r: Result<
        String,
        FsOp,
    >)
        requires
            status_ok(old(self)@),
        ensures
            match r {
                Ok(o) => sp_each(
                    reply_views(rs@),
                    old(self)@,
                    arg_views(items@),
                    0,
                    Seq::empty(),
                    path_step(kind, flags@),
                ) == Step::Done(o@, final(self)@),
                Err(op) => sp_each(
                    reply_views(rs@),
                    old(self)@,
                    arg_views(items@),
                    0,
                    Seq::empty(),
                    path_step(kind, flags@),
                ) == Step::<Seq<char>>::Pending(op@),
            },
            status_ok(final(self)@),
    {
        let ghost rv = reply_views(rs@);
        let ghost iv = arg_views(items@);
        let ghost f = path_step(kind, flags@);
        let ghost sh0 = self@;
        let mut out = String::new();
        let mut i: usize = 0;
        while i < items.len()
            invariant
                rv == reply_views(rs@),
                iv == arg_views(items@),
                iv.len() == items@.len(),
                f == path_step(kind, flags@),
                sh0 == old(self)@,
                i <= items.len(),
                status_ok(self@),
                sp_each(rv, sh0, iv, 0, Seq::empty(), f) == sp_each(rv, self@, iv, i as int, out@, f),
            decreases items.len() - i,
        {
            assert(iv[i as int] == items@[i as int]@);
            match self.path_one(rs, kind, flags, items[i].as_str()) {
                Ok(o) => push_str(&mut out, o.as_str()),
                Err(op) => {
                    return Err(op);
                },
            }
            i += 1;
        }
        Ok(out)
    }

    fn copy_to(
        &mut self,
        rs: &[FsReply],
        name: &str,
        arg: &str,
        src: String,
        dst: String,
        remove_src: bool,
    ) -> (r: Result<String, FsOp>)
        requires
            status_ok(old(self)@),
        ensures
            match r {
                Ok(o) => sp_copy_to(reply_views(rs@), old(self)@, name@, arg@, src@, dst@, remove_src)
                    == Step::Done(o@, final(self)@),
                Err(op) => sp_copy_to(reply_views(rs@), old(self)@, name@, arg@, src@, dst@, remove_src)
                    == Step::<Seq<char>>::Pending(op@),
            },
            status_ok(final(self)@),
    {
        let content = match self.read_file(rs, src.as_str()) {
            Err(o) => {
                return Err(o);
            },
            Ok(None) => {
                let m = cat4(name, ": ", arg, ": read error");
                self.fail(m.as_str());
                return Ok(String::new());
            },
            Ok(Some(c)) => c.clone(),
        };
        match self.change(rs, FsOp::Write(dst, content)) {
            Err(o) => {
                return Err(o);
            },
            Ok(Err(e)) => {
                let m = cat3(name, ": ", e.as_str());
                self.fail(m.as_str());
                return Ok(String::new());
            },
            Ok(Ok(())) => {},
        }
        if remove_src {
            match self.change(rs, FsOp::Delete(src)) {
                Err(o) => Err(o),
                Ok(Err(e)) => {
                    let m = cat3(name, ": ", e.as_str());
                    self.fail(m.as_str());
                    Ok(String::new())
                },
                Ok(Ok(())) => Ok(String::new()),
            }
        } else {
            Ok(String::new())
        }
    }

    fn copy(&mut self, rs: &[FsReply], args: &[String], remove_src: bool) -> (r: Result<String, FsOp>)
        requires
            status_ok(old(self)@),
        ensures
            match r {
                Ok(o) => sp_copy(reply_views(rs@), old(self)@, arg_views(args@), remove_src)
                    == Step::Done(o@, final(self)@),
                Err(op) => sp_copy(reply_views(rs@), old(self)@, arg_views(args@), remove_src)
                    == Step::<Seq<char>>::Pending(op@),
            },
            status_ok(final(self)@),
    {
        let name = if remove_src {
            "mv"
        } else {
            "cp"
        };
        let ops = operands_of(args);
        if ops.len() != 2 {
            let m = cat3(name, ": need source and destination", "");
            proof {
                reveal_strlit("");
                assert(m@ =~= name@ + ": need source and destination"@);
            }
            self.fail(m.as_str());
            return Ok(String::new());
        }
        assert(arg_views(ops@)[0] == ops@[0]@);
        assert(arg_views(ops@)[1] == ops@[1]@);
        let src = self.resolve(ops[0].as_str());
        match self.stat(rs, src.as_str()) {
            Err(o) => {
                return Err(o);
            },
            Ok(Some(false)) => {},
            Ok(_) => {
                let m = cat4(name, ": ", ops[0].as_str(), ": not a file");
                self.fail(m.as_str());
                return Ok(String::new());
            },
        }
        let dst0 = self.resolve(ops[1].as_str());
        let dst = match self.stat(rs, dst0.as_str()) {
            Err(o) => {
                return Err(o);
            },
            Ok(Some(true)) => {
                let b = basename(src.as_str());
                normalize(dst0.as_str(), b.as_str())
            },
            Ok(_) => dst0,
        };
        self.copy_to(rs, name, ops[0].as_str(), src, dst, remove_src)
    }

    fn grep(&mut self, rs: &[FsReply], args: &[String], stdin: String) -> (r: Result<String, FsOp>)
        requires
            status_ok(old(self)@),
        ensures
            match r {
                Ok(o) => sp_grep(reply_views(rs@), old(self)@, arg_views(args@), stdin@) == Step::Done(
                    o@,
                    final(self)@,
                ),
                Err(op) => sp_grep(reply_views(rs@), old(self)@, arg_views(args@), stdin@)
                    == Step::<Seq<char>>::Pending(op@),
            },
            status_ok(final(self)@),
    {
        let (opts, rest) = grep_args(args);
        if rest.len() == 0 {
            self.fail("grep: missing pattern");
            return Ok(String::new());
        }
        let ghost rv = reply_views(rs@);
        let ghost restv = arg_views(rest@);
        let ghost files = restv.drop_first();
        assert(restv[0] == rest@[0]@);
        let mut sources: Vec<(String, String)> = Vec::new();
        if rest.len() == 1 {
            sources.push((String::new(), stdin));
            assert(source_views(sources@) =~= seq![(Seq::<char>::empty(), stdin@)]);
        } else {
            let ghost sh0 = self@;
            let mut i: usize = 1;
            assert(source_views(sources@) =~= Seq::<(Seq<char>, Seq<char>)>::empty());
            while i < rest.len()
                invariant
                    rv == reply_views(rs@),
                    restv == arg_views(rest@),
                    restv == spec_split_flags(arg_views(args@)).1,
                    restv.len() == rest@.len(),
                    restv.len() > 1,
                    sh0 == old(self)@,
                    files == restv.drop_first(),
                    1 <= i <= rest.len(),
                    status_ok(self@),
                    sp_grep_sources_from(rv, sh0, files, 0, Seq::empty()) == sp_grep_sources_from(
                        rv,
                        self@,
                        files,
                        i - 1,
                        source_views(sources@),
                    ),
                decreases rest.len() - i,
            {
                assert(files[i - 1] == rest@[i as int]@);
                let path = self.resolve(rest[i].as_str());
                match self.read_file(rs, path.as_str()) {
                    Err(o) => {
                        return Err(o);
                    },
                    Ok(None) => {
                        let m = cat3("grep: ", rest[i].as_str(), ": not found");
                        self.fail(m.as_str());
                        return Ok(String::new());
                    },
                    Ok(Some(c)) => {
                        let ghost before = source_views(sources@);
                        sources.push((rest[i].clone(), c.clone()));
                        assert(source_views(sources@) =~= before.push((files[i - 1], c@)));
                    },
                }
                i += 1;
            }
        }
        let (out, matched) = grep_text(rest[0].as_str(), sources.as_slice(), opts);
        proof {
            let sv = source_views(sources@);
            let needle = grep_needle(rest@[0]@, opts);
            if matched {
                let k = choose|k: int|
                    0 <= k < sources@.len() && any_selected(
                        lines(#[trigger] sources@[k].1@),
                        needle,
                        opts,
                    );
                assert(sv[k].1 == sources@[k].1@);
            }
            if grep_matched(sv, needle, opts) {
                let k = choose|k: int| 0 <= k < sv.len() && any_selected(lines(#[trigger] sv[k].1), needle, opts);
                assert(sv[k].1 == sources@[k].1@);
            }
        }
        self.status = if matched {
            0
        } else {
            1
        };
        Ok(out)
    }

    fn head_tail(&mut self, rs: &[FsReply], args: &[String], stdin: String, head: bool) -> (r: Result<
        String,
        FsOp,
    >)
        requires
            status_ok(old(self)@),
        ensures
            match r {
                Ok(o) => sp_head_tail(reply_views(rs@), old(self)@, arg_views(args@), stdin@, head)
                    == Step::Done(o@, final(self)@),
                Err(op) => sp_head_tail(reply_views(rs@), old(self)@, arg_views(args@), stdin@, head)
                    == Step::<Seq<char>>::Pending(op@),
            },
            status_ok(final(self)@),
    {
        let (count, files) = parse_count(args, 10);
        let cmd = if head {
            "head"
        } else {
            "tail"
        };
        match self.read_all(rs, files.as_slice(), stdin, cmd) {
            Err(o) => Err(o),
            Ok(None) => Ok(String::new()),
            Ok(Some(c)) => Ok(head_tail_text(c.as_str(), count, head)),
        }
    }

    fn wc(&mut self, rs: &[FsReply], args: &[String], stdin: String) -> (r: Result<String, FsOp>)
        requires
            status_ok(old(self)@),
        ensures
            match r {
                Ok(o) => sp_wc(reply_views(rs@), old(self)@, arg_views(args@), stdin@) == Step::Done(
                    o@,
                    final(self)@,
                ),
                Err(op) => sp_wc(reply_views(rs@), old(self)@, arg_views(args@), stdin@)
                    == Step::<Seq<char>>::Pending(op@),
            },
            status_ok(final(self)@),
    {
        let (flags, files) = split_flags(args);
        match self.read_all(rs, files.as_slice(), stdin, "wc") {
            Err(o) => Err(o),
            Ok(None) => Ok(String::new()),
            Ok(Some(c)) => Ok(wc_text(c.as_str(), flags.as_str())),
        }
    }

    fn test(&mut self, rs: &[FsReply], bracket: bool, args: &[String]) -> (r: Result<String, FsOp>)
        requires
            status_ok(old(self)@),
        ensures
            match r {
                Ok(o) => sp_test(reply_views(rs@), old(self)@, bracket, arg_views(args@)) == Step::Done(
                    o@,
                    final(self)@,
                ),
                Err(op) => sp_test(reply_views(rs@), old(self)@, bracket, arg_views(args@))
                    == Step::<Seq<char>>::Pending(op@),
            },
            status_ok(final(self)@),
    {
        let step = test_step(bracket, args);
        proof {
            lemma_test_outcome(bracket, arg_views(args@), step);
        }
        match step {
            TestStep::Done(b) => {
                self.status = if b {
                    0
                } else {
                    1
                };
                Ok(String::new())
            },
            TestStep::Fail(m) => {
                self.fail(m.as_str());
                Ok(String::new())
            },
            TestStep::Stat { path, query } => {
                let p = self.resolve(path.as_str());
                match self.stat(rs, p.as_str()) {
                    Err(o) => Err(o),
                    Ok(st) => {
                        self.status = if stat_answer(query, st) {
                            0
                        } else {
                            1
                        };
                        Ok(String::new())
                    },
                }
            },
        }
    }

    fn cd(&mut self, rs: &[FsReply], args: &[String]) -> (r: Result<String, FsOp>)
        requires
            status_ok(old(self)@),
        ensures
            match r {
                Ok(o) => sp_cd(reply_views(rs@), old(self)@, arg_views(args@)) == Step::Done(
                    o@,
                    final(self)@,
                ),
                Err(op) => sp_cd(reply_views(rs@), old(self)@, arg_views(args@)) == Step::<
                    Seq<char>,
                >::Pending(op@),
            },
            status_ok(final(self)@),
    {
        let arg = if args.len() > 0 {
            args[0].clone()
        } else {
            String::new()
        };
        assert(args.len() > 0 ==> arg_views(args@)[0] == args@[0]@);
        let path = self.resolve(arg.as_str());
        match self.stat(rs, path.as_str()) {
            Err(o) => Err(o),
            Ok(Some(true)) => {
                self.cwd = path;
                Ok(String::new())
            },
            Ok(_) => {
                let m = cat3("cd: ", arg.as_str(), ": no such directory");
                self.fail(m.as_str());
                Ok(String::new())
            },
        }
    }

    /// Runs the builtin `cmd` on `args` with `stdin`, returning its output.
    fn builtin(&mut self, rs: &[FsReply], cmd: &String, args: &[String], stdin: String) -> (r: Result<
        String,
        FsOp,
    >)
        requires
            status_ok(old(self)@),
        ensures
            match r {
                Ok(o) => sp_builtin(reply_views(rs@), old(self)@, cmd@, arg_views(args@), stdin@)
                    == Step::Done(o@, final(self)@),
                Err(op) => sp_builtin(reply_views(rs@), old(self)@, cmd@, arg_views(args@), stdin@)
                    == Step::<Seq<char>>::Pending(op@),
            },
            status_ok(final(self)@),
    {
        proof {
            reveal_strlit("");
        }
        if same_str(cmd, "echo") {
            return Ok(echo(args));
        }
        if same_str(cmd, "true") {
            return Ok(String::new());
        }
        if same_str(cmd, "false") {
            self.status = 1;
            return Ok(String::new());
        }
        if same_str(cmd, "pwd") {
            let mut o = String::new();
            crate::text::push_char(&mut o, '/');
            push_str(&mut o, self.cwd.as_str());
            crate::text::push_char(&mut o, '\n');
            assert(o@ =~= seq!['/'] + self.cwd@ + seq!['\n']);
            return Ok(o);
        }
        if same_str(cmd, "cd") {
            return self.cd(rs, args);
        }
        if same_str(cmd, "ls") {
            if args.len() == 0 {
                let mut root: Vec<String> = Vec::new();
                root.push(String::new());
                assert(arg_views(root@) =~= seq![Seq::<char>::empty()]);
                return self.each(rs, PathKind::Ls, "", root.as_slice());
            }
            return self.each(rs, PathKind::Ls, "", args);
        }
        if same_str(cmd, "cat") {
            return match self.read_all(rs, args, stdin, "cat") {
                Err(o) => Err(o),
                Ok(Some(c)) => Ok(c),
                Ok(None) => Ok(String::new()),
            };
        }
        if same_str(cmd, "mkdir") {
            let (flags, paths) = split_flags(args);
            return self.each(rs, PathKind::Mkdir, flags.as_str(), paths.as_slice());
        }
        if same_str(cmd, "rm") {
            let (flags, paths) = split_flags(args);
            return self.each(rs, PathKind::Rm, flags.as_str(), paths.as_slice());
        }
        if same_str(cmd, "touch") {
            return self.each(rs, PathKind::Touch, "", args);
        }
        if same_str(cmd, "mv") {
            return self.copy(rs, args, true);
        }
        if same_str(cmd, "cp") {
            return self.copy(rs, args, false);
        }
        if same_str(cmd, "grep") {
            return self.grep(rs, args, stdin);
        }
        if same_str(cmd, "head") {
            return self.head_tail(rs, args, stdin, true);
        }
        if same_str(cmd, "tail") {
            return self.head_tail(rs, args, stdin, false);
        }
        if same_str(cmd, "wc") {
            return self.wc(rs, args, stdin);
        }
        let bracket = same_str(cmd, "[");
        if same_str(cmd, "test") || bracket {
            return self.test(rs, bracket, args);
        }
        let m = cat3(cmd.as_str(), ": command not found", "");
        assert(m@ =~= cmd@ + ": command not found"@);
        self.fail(m.as_str());
        Ok(String::new())
    }

    fn run_simple(&mut self, rs: &[FsReply], s: &Simple, stdin: String) -> (r: Result<String, FsOp>)
        requires
            status_ok(old(self)@),
        ensures
            match r {
                Ok(o) => sp_run_simple(reply_views(rs@), old(self)@, simple_view(*s), stdin@)
                    == Step::Done(o@, final(self)@),
                Err(op) => sp_run_simple(reply_views(rs@), old(self)@, simple_view(*s), stdin@)
                    == Step::<Seq<char>>::Pending(op@),
            },
            status_ok(final(self)@),
    {
        let ghost sv = simple_view(*s);
        let ghost rv = reply_views(rs@);
        let ghost sh0 = self@;
        if s.words.len() == 0 {
            let mut i: usize = 0;
            while i < s.assignments.len()
                invariant
                    sv == simple_view(*s),
                    sv.assignments.len() == s.assignments@.len(),
                    i <= s.assignments.len(),
                    status_ok(self@),
                    sp_assign_from(sh0, sv.assignments, 0) == sp_assign_from(self@, sv.assignments, i as int),
                decreases s.assignments.len() - i,
            {
                assert(sv.assignments[i as int] == (s.assignments@[i as int].0@, s.assignments@[i as int].1@));
                let v = self.expand(&s.assignments[i].1);
                let name = s.assignments[i].0.clone();
                let ghost before = self@;
                self.vars.set(name, v);
                assert(self@ == with_var(before, sv.assignments[i as int].0, sp_expand(before, sv.assignments[i as int].1)));
                i += 1;
            }
            self.status = 0;
            return Ok(String::new());
        }
        let mut argv: Vec<String> = Vec::new();
        let mut k: usize = 0;
        while k < s.words.len()
            invariant
                sv == simple_view(*s),
                sv.words.len() == s.words@.len(),
                k <= s.words.len(),
                self@ == sh0,
                status_ok(self@),
                arg_views(argv@) == expand_all(sh0, sv.words.take(k as int)),
            decreases s.words.len() - k,
        {
            assert(sv.words[k as int] == s.words@[k as int]@);
            let a = self.expand(&s.words[k]);
            let ghost before = arg_views(argv@);
            argv.push(a);
            assert(arg_views(argv@) =~= before.push(a@));
            assert(expand_all(sh0, sv.words.take(k + 1)) =~= expand_all(sh0, sv.words.take(k as int)).push(
                sp_expand(sh0, sv.words[k as int]),
            ));
            k += 1;
        }
        assert(sv.words.take(k as int) == sv.words);
        let mut input = stdin;
        let mut i: usize = 0;
        while i < s.redirects.len()
            invariant
                sv == simple_view(*s),
                rv == reply_views(rs@),
                sv.redirects.len() == s.redirects@.len(),
                sv.words.len() > 0,
                sh0 == old(self)@,
                arg_views(argv@) == expand_all(sh0, sv.words),
                i <= s.redirects.len(),
                status_ok(self@),
                sp_stdin_from(rv, sh0, sv.redirects, 0, stdin@) == sp_stdin_from(
                    rv,
                    self@,
                    sv.redirects,
                    i as int,
                    input@,
                ),
            decreases s.redirects.len() - i,
        {
            assert(sv.redirects[i as int] == redirect_view(s.redirects@[i as int]));
            match &s.redirects[i] {
                Redirect::In(w) => {
                    let e = self.expand(w);
                    let path = self.resolve(e.as_str());
                    match self.read_file(rs, path.as_str()) {
                        Err(o) => {
                            return Err(o);
                        },
                        Ok(Some(c)) => {
                            input = c.clone();
                        },
                        Ok(None) => {
                            let m = cat3(path.as_str(), ": No such file", "");
                            proof {
                                reveal_strlit("");
                                assert(m@ =~= path@ + ": No such file"@);
                            }
                            self.fail(m.as_str());
                            return Ok(String::new());
                        },
                    }
                },
                _ => {},
            }
            i += 1;
        }
        self.status = 0;
        assert(arg_views(argv@)[0] == argv@[0]@);
        assert(arg_views(argv@.subrange(1, argv@.len() as int)) =~= arg_views(argv@).drop_first());
        let out = match self.builtin(rs, &argv[0], &argv[1..argv.len()], input) {
            Err(o) => {
                return Err(o);
            },
            Ok(o) => o,
        };
        match first_out_of(&s.redirects) {
            None => Ok(out),
            Some((w, append)) => {
                let e = self.expand(w);
                let path = self.resolve(e.as_str());
                match self.write_file(rs, path.as_str(), out.as_str(), append) {
                    Err(o) => Err(o),
                    Ok(()) => Ok(String::new()),
                }
            },
        }
    }

    /// Runs `node`; see [`sp_eval`].
    pub fn eval(&mut self, rs: &[FsReply], node: &Node) -> (r: Result<(), FsOp>)
        requires
            status_ok(old(self)@),
        ensures
            match r {
                Ok(_) => sp_eval(reply_views(rs@), old(self)@, node_view(*node)) == Step::Done(
                    (),
                    final(self)@,
                ),
                Err(op) => sp_eval(reply_views(rs@), old(self)@, node_view(*node)) == Step::<
                    (),
                >::Pending(op@),
            },
            status_ok(final(self)@),
        decreases *node, 2int,
    {
        match node {
            Node::Sequence(_) => self.eval_seq(rs, node),
            Node::And(a, b) => {
                match self.eval(rs, a) {
                    Err(o) => {
                        return Err(o);
                    },
                    Ok(()) => {},
                }
                if self.status == 0 {
                    self.eval(rs, b)
                } else {
                    Ok(())
                }
            },
            Node::Or(a, b) => {
                match self.eval(rs, a) {
                    Err(o) => {
                        return Err(o);
                    },
                    Ok(()) => {},
                }
                if self.status != 0 {
                    self.eval(rs, b)
                } else {
                    Ok(())
                }
            },
            Node::Pipeline(_) => match self.eval_pipe(rs, node) {
                Err(o) => Err(o),
                Ok(out) => {
                    push_str(&mut self.stdout, out.as_str());
                    Ok(())
                },
            },
            Node::Simple(s) => match self.run_simple(rs, s, String::new()) {
                Err(o) => Err(o),
                Ok(out) => {
                    push_str(&mut self.stdout, out.as_str());
                    Ok(())
                },
            },
            Node::If { .. } => self.eval_if(rs, node),
            Node::For { .. } => self.eval_for(rs, node),
            Node::While { .. } => self.eval_while(rs, node),
        }
    }

    fn eval_seq(&mut self, rs: &[FsReply], node: &Node) -> (r: Result<(), FsOp>)
        requires
            status_ok(old(self)@),
        ensures
            match r {
                Ok(_) => sp_seq_from(reply_views(rs@), old(self)@, node_view(*node), 0) == Step::Done(
                    (),
                    final(self)@,
                ),
                Err(op) => sp_seq_from(reply_views(rs@), old(self)@, node_view(*node), 0)
                    == Step::<()>::Pending(op@),
            },
            status_ok(final(self)@),
        decreases *node, 1int,
    {
        let ghost rv = reply_views(rs@);
        let ghost nv = node_view(*node);
        let ghost sh0 = self@;
        match node {
            Node::Sequence(items) => {
                proof {
                    lemma_nodes_view_len(items@);
                }
                let mut i: usize = 0;
                while i < items.len()
                    invariant
                        rv == reply_views(rs@),
                        nv == node_view(*node),
                        nv == NodeV::Sequence(nodes_view(items@)),
                        nodes_view(items@).len() == items@.len(),
                        forall|j: int| 0 <= j < items@.len() ==> decreases_to!(*node => #[trigger] items@[j]),
                        sh0 == old(self)@,
                        i <= items.len(),
                        status_ok(self@),
                        sp_seq_from(rv, sh0, nv, 0) == sp_seq_from(rv, self@, nv, i as int),
                    decreases items.len() - i,
                {
                    proof {
                        lemma_nodes_view_index(items@, i as int);
                    }
                    match self.eval(rs, &items[i]) {
                        Err(o) => {
                            return Err(o);
                        },
                        Ok(()) => {},
                    }
                    i += 1;
                }
                Ok(())
            },
            _ => Ok(()),
        }
    }

    fn eval_pipe(&mut self, rs: &[FsReply], node: &Node) -> (r: Result<String, FsOp>)
        requires
            status_ok(old(self)@),
        ensures
            match r {
                Ok(o) => sp_pipe_from(reply_views(rs@), old(self)@, node_view(*node), 0, Seq::empty())
                    == Step::Done(o@, final(self)@),
                Err(op) => sp_pipe_from(reply_views(rs@), old(self)@, node_view(*node), 0, Seq::empty())
                    == Step::<Seq<char>>::Pending(op@),
            },
            status_ok(final(self)@),
        decreases *node, 1int,
    {
        let ghost rv = reply_views(rs@);
        let ghost nv = node_view(*node);
        let ghost sh0 = self@;
        let mut input = String::new();
        match node {
            Node::Pipeline(cmds) => {
                proof {
                    lemma_nodes_view_len(cmds@);
                }
                let mut i: usize = 0;
                while i < cmds.len()
                    invariant
                        rv == reply_views(rs@),
                        nv == node_view(*node),
                        nv == NodeV::Pipeline(nodes_view(cmds@)),
                        nodes_view(cmds@).len() == cmds@.len(),
                        forall|j: int| 0 <= j < cmds@.len() ==> decreases_to!(*node => #[trigger] cmds@[j]),
                        sh0 == old(self)@,
                        i <= cmds.len(),
                        status_ok(self@),
                        sp_pipe_from(rv, sh0, nv, 0, Seq::empty()) == sp_pipe_from(
                            rv,
                            self@,
                            nv,
                            i as int,
                            input@,
                        ),
                    decreases cmds.len() - i,
                {
                    proof {
                        lemma_nodes_view_index(cmds@, i as int);
                    }
                    match self.capture(rs, &cmds[i], input) {
                        Err(o) => {
                            return Err(o);
                        },
                        Ok(out) => {
                            input = out;
                        },
                    }
                    i += 1;
                }
                Ok(input)
            },
            _ => Ok(input),
        }
    }

    fn eval_if(&mut self, rs: &[FsReply], node: &Node) -> (r: Result<(), FsOp>)
        requires
            status_ok(old(self)@),
        ensures
            match r {
                Ok(_) => sp_if_from(reply_views(rs@), old(self)@, node_view(*node), 0) == Step::Done(
                    (),
                    final(self)@,
                ),
                Err(op) => sp_if_from(reply_views(rs@), old(self)@, node_view(*node), 0)
                    == Step::<()>::Pending(op@),
            },
            status_ok(final(self)@),
        decreases *node, 1int,
    {
        let ghost rv = reply_views(rs@);
        let ghost nv = node_view(*node);
        let ghost sh0 = self@;
        match node {
            Node::If { branches, else_branch } => {
                proof {
                    lemma_branches_view_len(branches@);
                }
                let ghost ev = match else_branch {
                    Some(b) => Some(Box::new(node_view(**b))),
                    None => None,
                };
                let mut i: usize = 0;
                while i < branches.len()
                    invariant
                        rv == reply_views(rs@),
                        nv == node_view(*node),
                        nv == (NodeV::If { branches: branches_view(branches@), else_branch: ev }),
                        branches_view(branches@).len() == branches@.len(),
                        forall|j: int|
                            0 <= j < branches@.len() ==> decreases_to!(*node => (#[trigger] branches@[j]).0)
                                && decreases_to!(*node => branches@[j].1),
                        sh0 == old(self)@,
                        i <= branches.len(),
                        status_ok(self@),
                        sp_if_from(rv, sh0, nv, 0) == sp_if_from(rv, self@, nv, i as int),
                    decreases branches.len() - i,
                {
                    proof {
                        lemma_branches_view_index(branches@, i as int);
                    }
                    match self.eval(rs, &branches[i].0) {
                        Err(o) => {
                            return Err(o);
                        },
                        Ok(()) => {},
                    }
                    if self.status == 0 {
                        return self.eval(rs, &branches[i].1);
                    }
                    i += 1;
                }
                match else_branch {
                    Some(b) => self.eval(rs, b),
                    None => Ok(()),
                }
            },
            _ => Ok(()),
        }
    }

    fn eval_for(&mut self, rs: &[FsReply], node: &Node) -> (r: Result<(), FsOp>)
        requires
            status_ok(old(self)@),
        ensures
            match r {
                Ok(_) => sp_for_from(reply_views(rs@), old(self)@, node_view(*node), 0) == Step::Done(
                    (),
                    final(self)@,
                ),
                Err(op) => sp_for_from(reply_views(rs@), old(self)@, node_view(*node), 0)
                    == Step::<()>::Pending(op@),
            },
            status_ok(final(self)@),
        decreases *node, 1int,
    {
        let ghost rv = reply_views(rs@);
        let ghost nv = node_view(*node);
        let ghost sh0 = self@;
        match node {
            Node::For { var, items, body } => {
                let mut i: usize = 0;
                while i < items.len()
                    invariant
                        rv == reply_views(rs@),
                        nv == node_view(*node),
                        nv == (NodeV::For {
                            var: var@,
                            items: crate::shell::parser::word_views(items@),
                            body: Box::new(node_view(**body)),
                        }),
                        decreases_to!(*node => **body),
                        sh0 == old(self)@,
                        i <= items.len(),
                        status_ok(self@),
                        sp_for_from(rv, sh0, nv, 0) == sp_for_from(rv, self@, nv, i as int),
                    decreases items.len() - i,
                {
                    assert(crate::shell::parser::word_views(items@)[i as int] == items@[i as int]@);
                    let value = self.expand(&items[i]);
                    self.vars.set(var.clone(), value);
                    match self.eval(rs, body) {
                        Err(o) => {
                            return Err(o);
                        },
                        Ok(()) => {},
                    }
                    i += 1;
                }
                Ok(())
            },
            _ => Ok(()),
        }
    }

    #[verifier::rlimit(40)]
    fn eval_while(&mut self, rs: &[FsReply], node: &Node) -> (r: Result<(), FsOp>)
        requires
            status_ok(old(self)@),
        ensures
            match r {
                Ok(_) => sp_while_from(reply_views(rs@), old(self)@, node_view(*node), 0) == Step::Done(
                    (),
                    final(self)@,
                ),
                Err(op) => sp_while_from(reply_views(rs@), old(self)@, node_view(*node), 0)
                    == Step::<()>::Pending(op@),
            },
            status_ok(final(self)@),
        decreases *node, 1int,
    {
        let ghost rv = reply_views(rs@);
        let ghost nv = node_view(*node);
        let ghost sh0 = self@;
        match node {
            Node::While { cond, body } => {
                let mut iterations: usize = 0;
                loop
                    invariant
                        rv == reply_views(rs@),
                        nv == node_view(*node),
                        nv == (NodeV::While {
                            cond: Box::new(node_view(**cond)),
                            body: Box::new(node_view(**body)),
                        }),
                        decreases_to!(*node => **cond),
                        decreases_to!(*node => **body),
                        sh0 == old(self)@,
                        iterations < MAX_LOOP_ITERATIONS,
                        status_ok(self@),
                        sp_while_from(rv, sh0, nv, 0) == sp_while_from(rv, self@, nv, iterations as nat),
                    decreases MAX_LOOP_ITERATIONS - iterations,
                {
                    match self.eval(rs, cond) {
                        Err(o) => {
                            return Err(o);
                        },
                        Ok(()) => {},
                    }
                    if self.status != 0 {
                        return Ok(());
                    }
                    match self.eval(rs, body) {
                        Err(o) => {
                            return Err(o);
                        },
                        Ok(()) => {},
                    }
                    iterations += 1;
                    if iterations >= MAX_LOOP_ITERATIONS {
                        push_str(&mut self.stderr, "while: iteration limit reached\n");
                        return Ok(());
                    }
                }
            },
            _ => Ok(()),
        }
    }

    /// Runs `node` and returns what it prints; see [`sp_capture`].
    pub fn capture(&mut self, rs: &[FsReply], node: &Node, stdin: String) -> (r: Result<String, FsOp>)
        requires
            status_ok(old(self)@),
        ensures
            match r {
                Ok(o) => sp_capture(reply_views(rs@), old(self)@, node_view(*node), stdin@)
                    == Step::Done(o@, final(self)@),
                Err(op) => sp_capture(reply_views(rs@), old(self)@, node_view(*node), stdin@)
                    == Step::<Seq<char>>::Pending(op@),
            },
            status_ok(final(self)@),
        decreases *node, 3int,
    {
        match node {
            Node::Simple(s) => self.run_simple(rs, s, stdin),
            _ => {
                let mut saved = String::new();
                std::mem::swap(&mut saved, &mut self.stdout);
                match self.eval(rs, node) {
                    Err(o) => Err(o),
                    Ok(()) => {
                        std::mem::swap(&mut saved, &mut self.stdout);
                        Ok(saved)
                    },
                }
            },
        }
    }

    /// A shell in `cwd` with no variables, status 0 and no output.
    pub fn new(cwd: String) -> (s: Shell)
        ensures
            s@ == (ShellV {
                vars: Map::empty(),
                cwd: cwd@,
                status: 0,
                stdout: Seq::empty(),
                stderr: Seq::empty(),
                cursor: 0,
            }),
    {
        Shell {
            vars: Vars::new(),
            cwd,
            status: 0,
            stdout: String::new(),
            stderr: String::new(),
            cursor: 0,
        }
    }

    fn request<'a>(&mut self, rs: &'a [FsReply], op: FsOp) -> (r: Result<&'a FsReply, FsOp>)
        ensures
            match r {
                Ok(x) => sp_request(reply_views(rs@), old(self)@, op@) == Step::Done(x@, final(self)@),
                Err(o) => sp_request(reply_views(rs@), old(self)@, op@) == Step::<FsReplyV>::Pending(
                    o@,
                ) && final(self)@ == old(self)@,
            },
    {
        if self.cursor < rs.len() {
            let i = self.cursor;
            self.cursor = self.cursor + 1;
            Ok(&rs[i])
        } else {
            Err(op)
        }
    }

    fn fail(&mut self, msg: &str)
        ensures
            final(self)@ == sp_fail(old(self)@, msg@),
    {
        let ghost s0 = self@;
        self.status = 1;
        push_str(&mut self.stderr, msg);
        crate::text::push_char(&mut self.stderr, '\n');
        assert(self.stderr@ =~= s0.stderr + msg@ + seq!['\n']);
    }

    fn var(&self, name: &str) -> (r: String)
        requires
            status_ok(self@),
        ensures
            r@ == sp_var(self@, name@),
    {
        proof {
            reveal_strlit("?");
        }
        if same_str(&name.to_owned(), "?") {
            decimal_string(self.status as usize)
        } else {
            self.vars.get(name)
        }
    }

    /// The word with its variables replaced by their values.
    pub fn expand(&self, w: &Word) -> (r: String)
        requires
            status_ok(self@),
        ensures
            r@ == sp_expand(self@, w@),
    {
        let mut out = String::new();
        let mut i: usize = 0;
        let ghost pv = w@.parts;
        while i < w.parts.len()
            invariant
                status_ok(self@),
                pv == w@.parts,
                pv.len() == w.parts@.len(),
                i <= w.parts.len(),
                out@ == sp_expand_parts(self@, pv.take(i as int)),
            decreases w.parts.len() - i,
        {
            assert(pv.take(i + 1).drop_last() == pv.take(i as int));
            assert(pv[i as int] == w.parts@[i as int]@);
            match &w.parts[i] {
                Part::Lit(s) => push_str(&mut out, s.as_str()),
                Part::Var(n) => {
                    let v = self.var(n.as_str());
                    push_str(&mut out, v.as_str());
                },
            }
            i += 1;
        }
        assert(pv.take(i as int) == pv);
        out
    }

    /// `path` resolved against the working directory.
    pub fn resolve(&self, path: &str) -> (r: String)
        ensures
            r@ == sp_resolve(self.cwd@, path@),
    {
        let v = chars_of(path);
        proof {
            reveal_strlit("");
        }
        if v.len() > 0 && v[0] == '/' {
            normalize("", path)
        } else {
            normalize(self.cwd.as_str(), path)
        }
    }
}

// ---------------------------------------------------------------------------
// Running a command line.
// ---------------------------------------------------------------------------

/// Where a run of a command line stands.
#[derive(Debug)]
pub enum RunStep {
    /// It finished: what it printed, its errors, and its exit status.
    Finished(String, String, i32),
    /// It needs this operation answered before it can go on.
    Needs(FsOp),
}

/// The shell a command line starts in: no variables, status 0, no output,
/// in `cwd` normalized.
pub open spec fn start_state(cwd: Seq<char>) -> ShellV {
    ShellV {
        vars: Map::empty(),
        cwd: spec_normalize(Seq::empty(), cwd),
        status: 0,
        stdout: Seq::empty(),
        stderr: Seq::empty(),
        cursor: 0,
    }
}

/// Whether `r` reports the step `s`.
pub open spec fn reports(r: RunStep, s: Step<()>) -> bool {
    match (r, s) {
        (RunStep::Finished(o, e, st), Step::Done(_, sh)) => o@ == sh.stdout && e@ == sh.stderr && st
            == sh.status,
        (RunStep::Needs(op), Step::Pending(o)) => op@ == o,
        _ => false,
    }
}

/// Runs `command` in `cwd` against the replies received so far: it fails
/// with the message of a lexing or parsing error, finishes, or names the
/// next operation it needs.
pub fn run_script(command: &str, cwd: &str, replies: &[FsReply]) -> (r: Result<RunStep, String>)
    ensures
        match (r, spec_parse_script(command@)) {
            (Err(m), Err(e)) => m@ == e.spec_message(),
            (Ok(step), Ok(n)) => reports(step, sp_eval(reply_views(replies@), start_state(cwd@), n)),
            _ => false,
        },
        r matches Ok(RunStep::Finished(_, _, status)) ==> status == 0 || status == 1,
{
    let program = match parse_script(command) {
        Ok(p) => p,
        Err(e) => {
            return Err(e.message());
        },
    };
    proof {
        reveal_strlit("");
    }
    let mut sh = Shell::new(normalize("", cwd));
    match sh.eval(replies, &program) {
        Ok(()) => Ok(RunStep::Finished(sh.stdout, sh.stderr, sh.status)),
        Err(op) => Ok(RunStep::Needs(op)),
    }
}

/// `a || b` runs `b` only when `a` fails: when `a` finishes with status 0
/// the whole is `a`'s outcome and `b` never runs; when `a` finishes with
/// another status the whole is `b` run from where `a` left the shell;
/// while `a` waits for the file system, so does the whole.
pub proof fn lemma_or_runs_right_only_after_failure(rs: Seq<FsReplyV>, sh: ShellV, a: NodeV, b: NodeV)
    ensures
        sp_eval(rs, sh, a) is Done && sp_eval(rs, sh, a)->Done_1.status == 0 ==> sp_eval(
            rs,
            sh,
            NodeV::Or(Box::new(a), Box::new(b)),
        ) == Step::<()>::Done((), sp_eval(rs, sh, a)->Done_1),
        sp_eval(rs, sh, a) is Done && sp_eval(rs, sh, a)->Done_1.status != 0 ==> sp_eval(
            rs,
            sh,
            NodeV::Or(Box::new(a), Box::new(b)),
        ) == sp_eval(rs, sp_eval(rs, sh, a)->Done_1, b),
        sp_eval(rs, sh, a) is Pending ==> sp_eval(rs, sh, NodeV::Or(Box::new(a), Box::new(b)))
            == sp_eval(rs, sh, a),
{
}

/// `a && b` runs `b` only when `a` succeeds: when `a` finishes with status
/// 0 the whole is `b` run from where `a` left the shell; when `a` finishes
/// with another status the whole is `a`'s outcome and `b` never runs.
pub proof fn lemma_and_runs_right_only_after_success(rs: Seq<FsReplyV>, sh: ShellV, a: NodeV, b: NodeV)
    ensures
        sp_eval(rs, sh, a) is Done && sp_eval(rs, sh, a)->Done_1.status == 0 ==> sp_eval(
            rs,
            sh,
            NodeV::And(Box::new(a), Box::new(b)),
        ) == sp_eval(rs, sp_eval(rs, sh, a)->Done_1, b),
        sp_eval(rs, sh, a) is Done && sp_eval(rs, sh, a)->Done_1.status != 0 ==> sp_eval(
            rs,
            sh,
            NodeV::And(Box::new(a), Box::new(b)),
        ) == Step::<()>::Done((), sp_eval(rs, sh, a)->Done_1),
        sp_eval(rs, sh, a) is Pending ==> sp_eval(rs, sh, NodeV::And(Box::new(a), Box::new(b)))
            == sp_eval(rs, sh, a),
{
}

/// `if c; then t; else e; fi` runs `t` when `c` succeeds and otherwise
/// `e` (or nothing), each from where `c` left the shell.
pub proof fn lemma_if_runs_the_branch_its_condition_picks(
    rs: Seq<FsReplyV>,
    sh: ShellV,
    c: NodeV,
    t: NodeV,
    e: Option<Box<NodeV>>,
)
    ensures
        ({
            let n = NodeV::If { branches: seq![(c, t)], else_branch: e };
            &&& sp_eval(rs, sh, c) is Done && sp_eval(rs, sh, c)->Done_1.status == 0 ==> sp_eval(rs, sh, n)
                == sp_eval(rs, sp_eval(rs, sh, c)->Done_1, t)
            &&& sp_eval(rs, sh, c) is Done && sp_eval(rs, sh, c)->Done_1.status != 0 ==> sp_eval(rs, sh, n)
                == match e {
                Some(b) => sp_eval(rs, sp_eval(rs, sh, c)->Done_1, *b),
                None => Step::<()>::Done((), sp_eval(rs, sh, c)->Done_1),
            }
            &&& sp_eval(rs, sh, c) is Pending ==> sp_eval(rs, sh, n) == sp_eval(rs, sh, c)
        }),
{
    let n = NodeV::If { branches: seq![(c, t)], else_branch: e };
    assert(seq![(c, t)][0] == (c, t));
    assert(sp_eval(rs, sh, n) == sp_if_from(rs, sh, n, 0));
    if sp_eval(rs, sh, c) is Done {
        let sh2 = sp_eval(rs, sh, c)->Done_1;
        assert(sp_if_from(rs, sh2, n, 1) == match e {
            Some(b) => sp_eval(rs, sh2, *b),
            None => Step::<()>::Done((), sh2),
        });
    }
}

/// `while c; do b; done` stops as soon as `c` fails, leaving the shell as
/// `c` left it; the body never runs then.
pub proof fn lemma_while_stops_when_its_condition_fails(rs: Seq<FsReplyV>, sh: ShellV, c: NodeV, b: NodeV)
    ensures
        sp_eval(rs, sh, c) is Done && sp_eval(rs, sh, c)->Done_1.status != 0 ==> sp_eval(
            rs,
            sh,
            NodeV::While { cond: Box::new(c), body: Box::new(b) },
        ) == Step::<()>::Done((), sp_eval(rs, sh, c)->Done_1),
{
    let n = NodeV::While { cond: Box::new(c), body: Box::new(b) };
    assert(sp_eval(rs, sh, n) == sp_while_from(rs, sh, n, 0));
}

} // verus!
