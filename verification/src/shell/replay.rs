//! Why a command line can be run again and again against a growing log of
//! replies: a step that finished with some replies finishes in the same way
//! with any longer log that starts with them.
use vstd::prelude::*;

use crate::shell::eval::{
    path_step, sp_builtin, sp_each, sp_grep_sources_from, sp_ls_one, sp_mkdir_one, sp_read,
    sp_read_all_from, sp_request, sp_resolve, sp_rm_one, sp_stat, sp_touch_one, sp_write_file,
    sp_capture, sp_eval, sp_expand, sp_for_from, sp_if_from, sp_pipe_from, sp_run_simple,
    sp_seq_from, sp_stdin_from, sp_while_from, node_len, with_stdout, with_var, FsOpV, FsReplyV,
    PathKind, ShellV, Step, MAX_LOOP_ITERATIONS,
};
use crate::shell::parser::{NodeV, RedirectV, SimpleV};

verus! {

/// `ext` starts with `rs`.
pub open spec fn extends(ext: Seq<FsReplyV>, rs: Seq<FsReplyV>) -> bool {
    rs.len() <= ext.len() && forall|i: int| 0 <= i < rs.len() ==> ext[i] == rs[i]
}

pub broadcast proof fn lemma_request_stable(
    rs: Seq<FsReplyV>,
    ext: Seq<FsReplyV>,
    sh: ShellV,
    op: FsOpV,
)
    requires
        extends(ext, rs),
        sp_request(rs, sh, op) is Done,
    ensures
        #![trigger sp_request(rs, sh, op), sp_request(ext, sh, op)]
        sp_request(ext, sh, op) == sp_request(rs, sh, op),
{
}

pub broadcast proof fn lemma_stat_stable(
    rs: Seq<FsReplyV>,
    ext: Seq<FsReplyV>,
    sh: ShellV,
    path: Seq<char>,
)
    requires
        extends(ext, rs),
        sp_stat(rs, sh, path) is Done,
    ensures
        #![trigger sp_stat(rs, sh, path), sp_stat(ext, sh, path)]
        sp_stat(ext, sh, path) == sp_stat(rs, sh, path),
{
    broadcast use lemma_request_stable;

}

pub broadcast proof fn lemma_write_file_stable(
    rs: Seq<FsReplyV>,
    ext: Seq<FsReplyV>,
    sh: ShellV,
    path: Seq<char>,
    content: Seq<char>,
    append: bool,
)
    requires
        extends(ext, rs),
        sp_write_file(rs, sh, path, content, append) is Done,
    ensures
        #![trigger sp_write_file(rs, sh, path, content, append), sp_write_file(ext, sh, path, content, append)]
        sp_write_file(ext, sh, path, content, append) == sp_write_file(rs, sh, path, content, append),
{
    broadcast use lemma_request_stable;

}

pub broadcast proof fn lemma_read_all_from_stable(
    rs: Seq<FsReplyV>,
    ext: Seq<FsReplyV>,
    sh: ShellV,
    files: Seq<Seq<char>>,
    cmd: Seq<char>,
    i: int,
    out: Seq<char>,
)
    requires
        extends(ext, rs),
        sp_read_all_from(rs, sh, files, cmd, i, out) is Done,
    ensures
        #![trigger sp_read_all_from(rs, sh, files, cmd, i, out), sp_read_all_from(ext, sh, files, cmd, i, out)]
        sp_read_all_from(ext, sh, files, cmd, i, out) == sp_read_all_from(rs, sh, files, cmd, i, out),
    decreases files.len() - i,
{
    broadcast use lemma_request_stable;

    if 0 <= i < files.len() {
        match sp_read(rs, sh, sp_resolve(sh.cwd, files[i])) {
            Step::Done(Some(c), sh2) => {
                lemma_read_all_from_stable(rs, ext, sh2, files, cmd, i + 1, out + c);
            },
            _ => {},
        }
    }
}

pub broadcast proof fn lemma_grep_sources_stable(
    rs: Seq<FsReplyV>,
    ext: Seq<FsReplyV>,
    sh: ShellV,
    files: Seq<Seq<char>>,
    i: int,
    acc: Seq<(Seq<char>, Seq<char>)>,
)
    requires
        extends(ext, rs),
        sp_grep_sources_from(rs, sh, files, i, acc) is Done,
    ensures
        #![trigger sp_grep_sources_from(rs, sh, files, i, acc), sp_grep_sources_from(ext, sh, files, i, acc)]
        sp_grep_sources_from(ext, sh, files, i, acc) == sp_grep_sources_from(rs, sh, files, i, acc),
    decreases files.len() - i,
{
    broadcast use lemma_request_stable;

    if 0 <= i < files.len() {
        match sp_read(rs, sh, sp_resolve(sh.cwd, files[i])) {
            Step::Done(Some(c), sh2) => {
                lemma_grep_sources_stable(rs, ext, sh2, files, i + 1, acc.push((files[i], c)));
            },
            _ => {},
        }
    }
}

proof fn lemma_path_step_stable(
    rs: Seq<FsReplyV>,
    ext: Seq<FsReplyV>,
    sh: ShellV,
    kind: PathKind,
    flags: Seq<char>,
    arg: Seq<char>,
)
    requires
        extends(ext, rs),
        (path_step(kind, flags))(rs, sh, arg) is Done,
    ensures
        (path_step(kind, flags))(ext, sh, arg) == (path_step(kind, flags))(rs, sh, arg),
{
    broadcast use lemma_request_stable, lemma_stat_stable;

    match kind {
        PathKind::Ls => {
            assert(sp_ls_one(ext, sh, arg) == sp_ls_one(rs, sh, arg));
        },
        PathKind::Mkdir => {
            assert(sp_mkdir_one(ext, sh, flags, arg) == sp_mkdir_one(rs, sh, flags, arg));
        },
        PathKind::Rm => {
            assert(sp_rm_one(ext, sh, flags, arg) == sp_rm_one(rs, sh, flags, arg));
        },
        PathKind::Touch => {
            assert(sp_touch_one(ext, sh, arg) == sp_touch_one(rs, sh, arg));
        },
    }
}

pub broadcast proof fn lemma_each_stable(
    rs: Seq<FsReplyV>,
    ext: Seq<FsReplyV>,
    sh: ShellV,
    items: Seq<Seq<char>>,
    i: int,
    out: Seq<char>,
    kind: PathKind,
    flags: Seq<char>,
)
    requires
        extends(ext, rs),
        sp_each(rs, sh, items, i, out, path_step(kind, flags)) is Done,
    ensures
        #![trigger sp_each(rs, sh, items, i, out, path_step(kind, flags)), sp_each(ext, sh, items, i, out, path_step(kind, flags))]
        sp_each(ext, sh, items, i, out, path_step(kind, flags)) == sp_each(
            rs,
            sh,
            items,
            i,
            out,
            path_step(kind, flags),
        ),
    decreases items.len() - i,
{
    if 0 <= i < items.len() {
        let f = path_step(kind, flags);
        match f(rs, sh, items[i]) {
            Step::Done(o, sh2) => {
                lemma_path_step_stable(rs, ext, sh, kind, flags, items[i]);
                lemma_each_stable(rs, ext, sh2, items, i + 1, out + o, kind, flags);
            },
            _ => {},
        }
    }
}

pub broadcast proof fn lemma_builtin_stable(
    rs: Seq<FsReplyV>,
    ext: Seq<FsReplyV>,
    sh: ShellV,
    cmd: Seq<char>,
    args: Seq<Seq<char>>,
    stdin: Seq<char>,
)
    requires
        extends(ext, rs),
        sp_builtin(rs, sh, cmd, args, stdin) is Done,
    ensures
        #![trigger sp_builtin(rs, sh, cmd, args, stdin), sp_builtin(ext, sh, cmd, args, stdin)]
        sp_builtin(ext, sh, cmd, args, stdin) == sp_builtin(rs, sh, cmd, args, stdin),
{
    broadcast use
        lemma_request_stable,
        lemma_stat_stable,
        lemma_read_all_from_stable,
        lemma_grep_sources_stable,
        lemma_each_stable,
    ;

}

pub broadcast proof fn lemma_stdin_stable(
    rs: Seq<FsReplyV>,
    ext: Seq<FsReplyV>,
    sh: ShellV,
    redirects: Seq<RedirectV>,
    i: int,
    stdin: Seq<char>,
)
    requires
        extends(ext, rs),
        sp_stdin_from(rs, sh, redirects, i, stdin) is Done,
    ensures
        #![trigger sp_stdin_from(rs, sh, redirects, i, stdin), sp_stdin_from(ext, sh, redirects, i, stdin)]
        sp_stdin_from(ext, sh, redirects, i, stdin) == sp_stdin_from(rs, sh, redirects, i, stdin),
    decreases redirects.len() - i,
{
    broadcast use lemma_request_stable;

    if 0 <= i < redirects.len() {
        match redirects[i] {
            RedirectV::In(w) => {
                let path = sp_resolve(sh.cwd, sp_expand(sh, w));
                match sp_read(rs, sh, path) {
                    Step::Done(Some(c), sh2) => {
                        lemma_stdin_stable(rs, ext, sh2, redirects, i + 1, c);
                    },
                    _ => {},
                }
            },
            _ => {
                lemma_stdin_stable(rs, ext, sh, redirects, i + 1, stdin);
            },
        }
    }
}

pub broadcast proof fn lemma_run_simple_stable(
    rs: Seq<FsReplyV>,
    ext: Seq<FsReplyV>,
    sh: ShellV,
    s: SimpleV,
    stdin: Seq<char>,
)
    requires
        extends(ext, rs),
        sp_run_simple(rs, sh, s, stdin) is Done,
    ensures
        #![trigger sp_run_simple(rs, sh, s, stdin), sp_run_simple(ext, sh, s, stdin)]
        sp_run_simple(ext, sh, s, stdin) == sp_run_simple(rs, sh, s, stdin),
{
    broadcast use lemma_stdin_stable, lemma_builtin_stable, lemma_write_file_stable;

}

/// Replies that a run did not use change nothing: a command that finished
/// with the replies `rs` finishes in the same state (the same output,
/// errors, status and variables) with any longer log of replies that starts
/// with `rs`. So a driver that answers the operation a run asks for and runs
/// the command again from the start retraces every step already taken.
pub proof fn lemma_unused_replies_change_nothing(
    rs: Seq<FsReplyV>,
    ext: Seq<FsReplyV>,
    sh: ShellV,
    n: NodeV,
)
    requires
        rs.is_prefix_of(ext),
        sp_eval(rs, sh, n) is Done,
    ensures
        sp_eval(ext, sh, n) == sp_eval(rs, sh, n),
{
    assert forall|i: int| 0 <= i < rs.len() implies ext[i] == rs[i] by {
        assert(rs[i] == ext.subrange(0, rs.len() as int)[i]);
    }
    lemma_eval_stable(rs, ext, sh, n);
}

proof fn lemma_eval_stable(rs: Seq<FsReplyV>, ext: Seq<FsReplyV>, sh: ShellV, n: NodeV)
    requires
        extends(ext, rs),
        sp_eval(rs, sh, n) is Done,
    ensures
        sp_eval(ext, sh, n) == sp_eval(rs, sh, n),
    decreases n, 2int, 0int,
{
    match n {
        NodeV::Sequence(_) => {
            lemma_seq_stable(rs, ext, sh, n, 0);
        },
        NodeV::And(a, b) => {
            lemma_eval_stable(rs, ext, sh, *a);
            match sp_eval(rs, sh, *a) {
                Step::Done(_, sh2) => {
                    if sh2.status == 0 {
                        lemma_eval_stable(rs, ext, sh2, *b);
                    }
                },
                _ => {},
            }
        },
        NodeV::Or(a, b) => {
            lemma_eval_stable(rs, ext, sh, *a);
            match sp_eval(rs, sh, *a) {
                Step::Done(_, sh2) => {
                    if sh2.status != 0 {
                        lemma_eval_stable(rs, ext, sh2, *b);
                    }
                },
                _ => {},
            }
        },
        NodeV::Pipeline(_) => {
            lemma_pipe_stable(rs, ext, sh, n, 0, Seq::empty());
        },
        NodeV::Simple(s) => {
            lemma_run_simple_stable(rs, ext, sh, s, Seq::empty());
        },
        NodeV::If { .. } => {
            lemma_if_stable(rs, ext, sh, n, 0);
        },
        NodeV::For { .. } => {
            lemma_for_stable(rs, ext, sh, n, 0);
        },
        NodeV::While { .. } => {
            lemma_while_stable(rs, ext, sh, n, 0);
        },
    }
}

proof fn lemma_seq_stable(rs: Seq<FsReplyV>, ext: Seq<FsReplyV>, sh: ShellV, n: NodeV, i: int)
    requires
        extends(ext, rs),
        sp_seq_from(rs, sh, n, i) is Done,
    ensures
        sp_seq_from(ext, sh, n, i) == sp_seq_from(rs, sh, n, i),
    decreases n, 1int, node_len(n) - i,
{
    match n {
        NodeV::Sequence(items) => {
            if 0 <= i < items.len() {
                lemma_eval_stable(rs, ext, sh, items[i]);
                match sp_eval(rs, sh, items[i]) {
                    Step::Done(_, sh2) => {
                        lemma_seq_stable(rs, ext, sh2, n, i + 1);
                    },
                    _ => {},
                }
            }
        },
        _ => {},
    }
}

proof fn lemma_pipe_stable(
    rs: Seq<FsReplyV>,
    ext: Seq<FsReplyV>,
    sh: ShellV,
    n: NodeV,
    i: int,
    input: Seq<char>,
)
    requires
        extends(ext, rs),
        sp_pipe_from(rs, sh, n, i, input) is Done,
    ensures
        sp_pipe_from(ext, sh, n, i, input) == sp_pipe_from(rs, sh, n, i, input),
    decreases n, 1int, node_len(n) - i,
{
    match n {
        NodeV::Pipeline(cmds) => {
            if 0 <= i < cmds.len() {
                lemma_capture_stable(rs, ext, sh, cmds[i], input);
                match sp_capture(rs, sh, cmds[i], input) {
                    Step::Done(out, sh2) => {
                        lemma_pipe_stable(rs, ext, sh2, n, i + 1, out);
                    },
                    _ => {},
                }
            }
        },
        _ => {},
    }
}

proof fn lemma_capture_stable(
    rs: Seq<FsReplyV>,
    ext: Seq<FsReplyV>,
    sh: ShellV,
    n: NodeV,
    stdin: Seq<char>,
)
    requires
        extends(ext, rs),
        sp_capture(rs, sh, n, stdin) is Done,
    ensures
        sp_capture(ext, sh, n, stdin) == sp_capture(rs, sh, n, stdin),
    decreases n, 3int, 0int,
{
    match n {
        NodeV::Simple(s) => {
            lemma_run_simple_stable(rs, ext, sh, s, stdin);
        },
        _ => {
            lemma_eval_stable(rs, ext, with_stdout(sh, Seq::empty()), n);
        },
    }
}

proof fn lemma_if_stable(rs: Seq<FsReplyV>, ext: Seq<FsReplyV>, sh: ShellV, n: NodeV, i: int)
    requires
        extends(ext, rs),
        sp_if_from(rs, sh, n, i) is Done,
    ensures
        sp_if_from(ext, sh, n, i) == sp_if_from(rs, sh, n, i),
    decreases n, 1int, node_len(n) - i,
{
    match n {
        NodeV::If { branches, else_branch } => {
            if 0 <= i < branches.len() {
                lemma_eval_stable(rs, ext, sh, branches[i].0);
                match sp_eval(rs, sh, branches[i].0) {
                    Step::Done(_, sh2) => {
                        if sh2.status == 0 {
                            lemma_eval_stable(rs, ext, sh2, branches[i].1);
                        } else {
                            lemma_if_stable(rs, ext, sh2, n, i + 1);
                        }
                    },
                    _ => {},
                }
            } else {
                match else_branch {
                    Some(b) => {
                        lemma_eval_stable(rs, ext, sh, *b);
                    },
                    None => {},
                }
            }
        },
        _ => {},
    }
}

proof fn lemma_for_stable(rs: Seq<FsReplyV>, ext: Seq<FsReplyV>, sh: ShellV, n: NodeV, i: int)
    requires
        extends(ext, rs),
        sp_for_from(rs, sh, n, i) is Done,
    ensures
        sp_for_from(ext, sh, n, i) == sp_for_from(rs, sh, n, i),
    decreases n, 1int, node_len(n) - i,
{
    match n {
        NodeV::For { var, items, body } => {
            if 0 <= i < items.len() {
                let sh1 = with_var(sh, var, sp_expand(sh, items[i]));
                lemma_eval_stable(rs, ext, sh1, *body);
                match sp_eval(rs, sh1, *body) {
                    Step::Done(_, sh2) => {
                        lemma_for_stable(rs, ext, sh2, n, i + 1);
                    },
                    _ => {},
                }
            }
        },
        _ => {},
    }
}

proof fn lemma_while_stable(rs: Seq<FsReplyV>, ext: Seq<FsReplyV>, sh: ShellV, n: NodeV, iters: nat)
    requires
        extends(ext, rs),
        sp_while_from(rs, sh, n, iters) is Done,
    ensures
        sp_while_from(ext, sh, n, iters) == sp_while_from(rs, sh, n, iters),
    decreases n, 1int, MAX_LOOP_ITERATIONS - iters,
{
    match n {
        NodeV::While { cond, body } => {
            lemma_eval_stable(rs, ext, sh, *cond);
            match sp_eval(rs, sh, *cond) {
                Step::Done(_, sh2) => {
                    if sh2.status == 0 {
                        lemma_eval_stable(rs, ext, sh2, *body);
                        match sp_eval(rs, sh2, *body) {
                            Step::Done(_, sh3) => {
                                if iters + 1 < MAX_LOOP_ITERATIONS {
                                    lemma_while_stable(rs, ext, sh3, n, iters + 1);
                                }
                            },
                            _ => {},
                        }
                    }
                },
                _ => {},
            }
        },
        _ => {},
    }
}

} // verus!
