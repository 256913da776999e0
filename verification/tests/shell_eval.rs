use std::collections::{BTreeMap, BTreeSet};

use server::shell::eval::{run_script, FsOp, FsReply, Listed, RunStep};

/// A small in-memory file system: files by path, and directories. Only the
/// workspace (`~workspace` and below) can be changed.
struct MemFs {
    files: BTreeMap<String, String>,
    dirs: BTreeSet<String>,
}

impl MemFs {
    fn new() -> Self {
        let mut dirs = BTreeSet::new();
        dirs.insert("~workspace".to_string());
        MemFs { files: BTreeMap::new(), dirs }
    }

    fn writable(path: &str) -> bool {
        path.starts_with("~workspace/")
    }

    fn parent(path: &str) -> &str {
        match path.rfind('/') {
            Some(i) => &path[..i],
            None => "",
        }
    }

    fn add_dirs(&mut self, path: &str) {
        let mut p = path.to_string();
        while !p.is_empty() {
            self.dirs.insert(p.clone());
            p = Self::parent(&p).to_string();
        }
    }

    fn apply(&mut self, op: &FsOp) -> FsReply {
        match op {
            FsOp::Read(p) => FsReply::Text(self.files.get(p).cloned()),
            FsOp::List(p) => {
                if !p.is_empty() && !self.dirs.contains(p) {
                    return FsReply::Listing(None);
                }
                let mut out = Vec::new();
                for d in &self.dirs {
                    if Self::parent(d) == p && d != p {
                        out.push(Listed { name: d.rsplit('/').next().unwrap().to_string(), is_dir: true });
                    }
                }
                for f in self.files.keys() {
                    if Self::parent(f) == p {
                        out.push(Listed { name: f.rsplit('/').next().unwrap().to_string(), is_dir: false });
                    }
                }
                FsReply::Listing(Some(out))
            },
            FsOp::Write(p, c) => {
                if !Self::writable(p) {
                    return FsReply::Outcome(Err("path is read-only".to_string()));
                }
                let parent = Self::parent(p).to_string();
                self.add_dirs(&parent);
                self.files.insert(p.clone(), c.clone());
                FsReply::Outcome(Ok(()))
            },
            FsOp::CreateDir(p) => {
                if !Self::writable(p) {
                    return FsReply::Outcome(Err("path is read-only".to_string()));
                }
                self.add_dirs(p);
                FsReply::Outcome(Ok(()))
            },
            FsOp::Delete(p) => {
                if !Self::writable(p) {
                    return FsReply::Outcome(Err("path is read-only".to_string()));
                }
                if self.files.remove(p).is_some() {
                    return FsReply::Outcome(Ok(()));
                }
                if self.dirs.remove(p) {
                    let prefix = format!("{p}/");
                    self.files.retain(|k, _| !k.starts_with(&prefix));
                    self.dirs.retain(|k| !k.starts_with(&prefix));
                    return FsReply::Outcome(Ok(()));
                }
                FsReply::Outcome(Err("not found".to_string()))
            },
        }
    }
}

/// Runs `command` to the end, answering each operation it asks for and
/// running it again with the answers so far.
fn run(fs: &mut MemFs, command: &str) -> Result<(String, String, i32), String> {
    let mut replies: Vec<FsReply> = Vec::new();
    loop {
        match run_script(command, "/~workspace", &replies)? {
            RunStep::Finished(out, err, status) => return Ok((out, err, status)),
            RunStep::Needs(op) => {
                let reply = fs.apply(&op);
                replies.push(reply);
            },
        }
    }
}

fn exec(fs: &mut MemFs, command: &str) -> (String, String, i32) {
    run(fs, command).unwrap()
}

#[test]
fn echo_and_pipe() {
    let mut fs = MemFs::new();
    let (out, _, code) = exec(&mut fs, "echo hello world");
    assert_eq!(out, "hello world\n");
    assert_eq!(code, 0);
}

#[test]
fn variables_and_expansion() {
    let mut fs = MemFs::new();
    let (out, _, _) = exec(&mut fs, "X=42; echo \"val=$X\"");
    assert_eq!(out, "val=42\n");
}

#[test]
fn redirect_and_read_back() {
    let mut fs = MemFs::new();
    exec(&mut fs, "echo line1 > /~workspace/a.txt");
    exec(&mut fs, "echo line2 >> /~workspace/a.txt");
    let (out, _, _) = exec(&mut fs, "cat /~workspace/a.txt");
    assert_eq!(out, "line1\nline2\n");
}

#[test]
fn writes_outside_workspace_are_rejected() {
    let mut fs = MemFs::new();
    let (_, err, code) = exec(&mut fs, "echo hi > /global.txt");
    assert_ne!(code, 0);
    assert!(err.contains("read-only"));
}

#[test]
fn pipe_to_grep() {
    let mut fs = MemFs::new();
    exec(&mut fs, "echo foo > f; echo bar >> f");
    let (out, _, code) = exec(&mut fs, "cat f | grep foo");
    assert_eq!(out, "foo\n");
    assert_eq!(code, 0);
}

#[test]
fn if_branch() {
    let mut fs = MemFs::new();
    exec(&mut fs, "echo hi > exists.txt");
    let (out, _, _) = exec(&mut fs, "if test -f exists.txt; then echo yes; else echo no; fi");
    assert_eq!(out, "yes\n");
}

#[test]
fn for_loop() {
    let mut fs = MemFs::new();
    let (out, _, _) = exec(&mut fs, "for x in a b c; do echo $x; done");
    assert_eq!(out, "a\nb\nc\n");
}

#[test]
fn while_loop_terminates_on_state_change() {
    let mut fs = MemFs::new();
    let (out, _, _) = exec(&mut fs, "echo x > flag; while test -f flag; do echo run; rm flag; done");
    assert_eq!(out, "run\n");
}

#[test]
fn mkdir_cd_and_relative_paths() {
    let mut fs = MemFs::new();
    exec(&mut fs, "mkdir -p a/b");
    exec(&mut fs, "echo deep > a/b/c.txt");
    let (out, _, _) = exec(&mut fs, "cd a/b; cat c.txt");
    assert_eq!(out, "deep\n");
}

#[test]
fn rm_and_logical_operators() {
    let mut fs = MemFs::new();
    exec(&mut fs, "echo x > gone.txt");
    let (_, _, code) = exec(&mut fs, "rm gone.txt && echo removed");
    assert_eq!(code, 0);
    let (_, _, code) = exec(&mut fs, "cat gone.txt");
    assert_eq!(code, 1);
}

#[test]
fn mv_and_cp() {
    let mut fs = MemFs::new();
    exec(&mut fs, "echo data > src.txt");
    exec(&mut fs, "cp src.txt copy.txt");
    exec(&mut fs, "mv src.txt moved.txt");
    let (out, _, _) = exec(&mut fs, "cat copy.txt moved.txt");
    assert_eq!(out, "data\ndata\n");
    let (_, _, code) = exec(&mut fs, "cat src.txt");
    assert_eq!(code, 1);
}

#[test]
fn wc_and_head_tail() {
    let mut fs = MemFs::new();
    exec(&mut fs, "echo a > f; echo b >> f; echo c >> f");
    let (out, _, _) = exec(&mut fs, "wc -l f");
    assert_eq!(out, "3\n");
    let (out, _, _) = exec(&mut fs, "head -n 1 f");
    assert_eq!(out, "a\n");
    let (out, _, _) = exec(&mut fs, "tail -n 1 f");
    assert_eq!(out, "c\n");
}

#[test]
fn parse_error_is_reported() {
    let mut fs = MemFs::new();
    let err = run(&mut fs, "if true; then echo hi");
    assert!(err.is_err());
}

#[test]
fn a_run_names_the_operation_it_needs_first() {
    match run_script("cat notes.txt", "/~workspace", &[]).unwrap() {
        RunStep::Needs(FsOp::Read(p)) => assert_eq!(p, "~workspace/notes.txt"),
        other => panic!("unexpected {other:?}"),
    }
    let replies = vec![FsReply::Text(Some("hello\n".to_string()))];
    match run_script("cat notes.txt", "/~workspace", &replies).unwrap() {
        RunStep::Finished(out, err, status) => {
            assert_eq!(out, "hello\n");
            assert_eq!(err, "");
            assert_eq!(status, 0);
        },
        other => panic!("unexpected {other:?}"),
    }
}

#[test]
fn exit_status_is_visible_as_a_variable() {
    let mut fs = MemFs::new();
    let (out, _, code) = exec(&mut fs, "false; echo $?; true; echo ${?}");
    assert_eq!(out, "1\n0\n");
    assert_eq!(code, 0);
}

#[test]
fn unknown_commands_and_missing_files_fail_on_stderr() {
    let mut fs = MemFs::new();
    let (out, err, code) = exec(&mut fs, "frobnicate x");
    assert_eq!((out.as_str(), err.as_str(), code), ("", "frobnicate: command not found\n", 1));
    let (_, err, code) = exec(&mut fs, "cat nope");
    assert_eq!((err.as_str(), code), ("cat: nope: not found\n", 1));
    let (_, err, code) = exec(&mut fs, "cd nowhere");
    assert_eq!((err.as_str(), code), ("cd: nowhere: no such directory\n", 1));
    let (_, err, code) = exec(&mut fs, "[ a = a");
    assert_eq!((err.as_str(), code), ("[: missing `]'\n", 1));
    let (_, err, code) = exec(&mut fs, "wc < missing.txt");
    assert_eq!((err.as_str(), code), ("~workspace/missing.txt: No such file\n", 1));
}

#[test]
fn grep_numbers_and_names_lines_across_files() {
    let mut fs = MemFs::new();
    exec(&mut fs, "echo apple > a; echo pear >> a; echo Apple > b");
    let (out, _, code) = exec(&mut fs, "grep -in apple a b");
    assert_eq!(out, "a:1:apple\nb:1:Apple\n");
    assert_eq!(code, 0);
    let (out, _, code) = exec(&mut fs, "grep -v apple a");
    assert_eq!(out, "pear\n");
    assert_eq!(code, 0);
    let (out, _, code) = exec(&mut fs, "grep kiwi a");
    assert_eq!(out, "");
    assert_eq!(code, 1);
}

#[test]
fn ls_pwd_and_directories() {
    let mut fs = MemFs::new();
    exec(&mut fs, "mkdir d; touch d/x; echo hi > y");
    let (out, _, _) = exec(&mut fs, "ls");
    assert_eq!(out, "d\ny\n");
    let (out, _, _) = exec(&mut fs, "cd d; pwd; ls");
    assert_eq!(out, "/~workspace/d\nx\n");
    let (_, err, code) = exec(&mut fs, "rm d");
    assert_eq!((err.as_str(), code), ("rm: d: is a directory\n", 1));
    let (_, err, code) = exec(&mut fs, "mkdir d");
    assert_eq!((err.as_str(), code), ("mkdir: d: exists\n", 1));
    let (_, _, code) = exec(&mut fs, "rm -r d");
    assert_eq!(code, 0);
    let (_, _, code) = exec(&mut fs, "test -e d");
    assert_eq!(code, 1);
}

#[test]
fn cp_into_a_directory_keeps_the_name() {
    let mut fs = MemFs::new();
    exec(&mut fs, "mkdir dir; echo v > file.txt; cp file.txt dir");
    let (out, _, code) = exec(&mut fs, "cat dir/file.txt");
    assert_eq!((out.as_str(), code), ("v\n", 0));
    let (_, err, _) = exec(&mut fs, "cp only");
    assert_eq!(err, "cp: need source and destination\n");
}

#[test]
fn while_loops_stop_at_their_limit() {
    let mut fs = MemFs::new();
    let (out, err, code) = exec(&mut fs, "while true; do true; done");
    assert_eq!(out, "");
    assert_eq!(err, "while: iteration limit reached\n");
    assert_eq!(code, 0);
}

#[test]
fn pipelines_feed_each_stage_the_last_output() {
    let mut fs = MemFs::new();
    let (out, _, _) = exec(&mut fs, "echo one two | wc -w");
    assert_eq!(out, "2\n");
    let (out, _, _) = exec(&mut fs, "for i in a b; do echo $i; done | tail -n 1");
    assert_eq!(out, "b\n");
}

#[test]
fn replies_beyond_a_finished_run_change_nothing() {
    let one = vec![FsReply::Text(Some("x\n".to_string()))];
    let more = vec![
        FsReply::Text(Some("x\n".to_string())),
        FsReply::Outcome(Ok(())),
        FsReply::Listing(None),
    ];
    let a = run_script("cat f; echo ok", "/~workspace", &one).unwrap();
    let b = run_script("cat f; echo ok", "/~workspace", &more).unwrap();
    match (a, b) {
        (RunStep::Finished(o1, e1, s1), RunStep::Finished(o2, e2, s2)) => {
            assert_eq!(o1, "x\nok\n");
            assert_eq!((o1, e1, s1), (o2, e2, s2));
        },
        other => panic!("unexpected {other:?}"),
    }
}
