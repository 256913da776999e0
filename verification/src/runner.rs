//! Errors of the agent pool and scheduler, the reply-format reminder
//! appended to user messages, the prompts of automations, the queue of runs
//! of a thread and its sequence numbers.
use vstd::prelude::*;

use crate::skills::push_str;

use base64::Engine;

verus! {

broadcast use vstd::string::group_string_axioms;

/// Why an agent pool request failed.
#[derive(Debug)]
pub enum AgentPoolError {
    ThreadNotFound,
    AlreadyRunning,
    ApprovalNotFound,
    QuizNotFound,
    EventHistoryExpired,
    WorkerStopped,
    /// A failure below the pool, with its rendered message.
    Internal(String),
}

impl AgentPoolError {
    pub open spec fn spec_message(&self) -> Seq<char> {
        match self {
            AgentPoolError::ThreadNotFound => "thread not found"@,
            AgentPoolError::AlreadyRunning => "thread is already running"@,
            AgentPoolError::ApprovalNotFound => "approval not found"@,
            AgentPoolError::QuizNotFound => "quiz not found"@,
            AgentPoolError::EventHistoryExpired => "event history expired"@,
            AgentPoolError::WorkerStopped => "agent worker stopped"@,
            AgentPoolError::Internal(m) => m@,
        }
    }

    /// The text shown for this error.
    pub fn message(&self) -> (r: String)
        ensures
            r@ == self.spec_message(),
    {
        match self {
            AgentPoolError::ThreadNotFound => "thread not found".to_owned(),
            AgentPoolError::AlreadyRunning => "thread is already running".to_owned(),
            AgentPoolError::ApprovalNotFound => "approval not found".to_owned(),
            AgentPoolError::QuizNotFound => "quiz not found".to_owned(),
            AgentPoolError::EventHistoryExpired => "event history expired".to_owned(),
            AgentPoolError::WorkerStopped => "agent worker stopped".to_owned(),
            AgentPoolError::Internal(m) => m.clone(),
        }
    }
}

/// What caused an automation to fire.
#[derive(Clone, Copy, Debug, PartialEq, Eq, Structural)]
pub enum TriggerSource {
    Cron,
    Webhook,
    Manual,
    VfsChange,
    Email,
    Gmail,
}

/// Why a fire request was not accepted.
#[derive(Clone, Copy, Debug, PartialEq, Eq, Structural)]
pub enum ExecutorError {
    /// The executor no longer receives requests.
    Closed,
}

/// How a surface renders the agent's replies.
#[derive(Clone, Copy, Debug, PartialEq, Eq, Structural)]
pub enum MessageFormat {
    Html,
    Markdown,
}

pub open spec fn format_reminder(format: MessageFormat) -> Seq<char> {
    match format {
        MessageFormat::Html => "Reply in safe HTML only (p, ul/ol/li, table, h1-h6, strong, em, code, pre, blockquote, a, br, hr). Markdown is NOT rendered on this surface: never write **bold**, [link](url), # headings, - bullets, | tables |, or ``` fences. If you drafted Markdown, rewrite it as HTML before answering."@,
        MessageFormat::Markdown => "Reply in plain Telegram-friendly Markdown. Do not use HTML tags."@,
    }
}

/// The user's message followed by a reminder of the reply format.
pub fn with_format_reminder(content: String, format: MessageFormat) -> (r: String)
    ensures
        r@ == content@ + "\n\n<system-reminder>"@ + format_reminder(format) + "</system-reminder>"@,
{
    let reminder = match format {
        MessageFormat::Html => "Reply in safe HTML only (p, ul/ol/li, table, h1-h6, strong, em, code, pre, blockquote, a, br, hr). Markdown is NOT rendered on this surface: never write **bold**, [link](url), # headings, - bullets, | tables |, or ``` fences. If you drafted Markdown, rewrite it as HTML before answering.",
        MessageFormat::Markdown => "Reply in plain Telegram-friendly Markdown. Do not use HTML tags.",
    };
    let mut s = content;
    push_str(&mut s, "\n\n<system-reminder>");
    push_str(&mut s, reminder);
    push_str(&mut s, "</system-reminder>");
    s
}

/// The agent prompt of an automation, with the trigger payload (already
/// rendered as pretty JSON) appended as a fenced data block.
pub fn agent_prompt(base: &str, payload_json: Option<&str>) -> (r: String)
    ensures
        r@ == match payload_json {
            Some(p) => base@ + "\n\n---\nTrigger payload (JSON):\n```json\n"@ + p@ + "\n```"@,
            None => base@,
        },
{
    let mut s = base.to_owned();
    match payload_json {
        Some(p) => {
            push_str(&mut s, "\n\n---\nTrigger payload (JSON):\n```json\n");
            push_str(&mut s, p);
            push_str(&mut s, "\n```");
        },
        None => {},
    }
    s
}

/// The digit of `v < 64` in the standard base64 alphabet (RFC 4648).
pub open spec fn b64_digit(v: int) -> char {
    if v < 26 {
        (65 + v) as char
    } else if v < 52 {
        (97 + v - 26) as char
    } else if v < 62 {
        (48 + v - 52) as char
    } else if v == 62 {
        '+'
    } else {
        '/'
    }
}

/// Standard base64 with `=` padding: each group of three bytes becomes four
/// digits of six bits each, most significant first.
pub open spec fn base64_standard(b: Seq<u8>) -> Seq<char>
    decreases b.len(),
{
    if b.len() == 0 {
        Seq::empty()
    } else if b.len() == 1 {
        seq![b64_digit((b[0] / 4) as int), b64_digit((b[0] % 4) * 16), '=', '=']
    } else if b.len() == 2 {
        seq![
            b64_digit((b[0] / 4) as int),
            b64_digit((b[0] % 4) * 16 + b[1] / 16),
            b64_digit((b[1] % 16) * 4),
            '=',
        ]
    } else {
        seq![
            b64_digit((b[0] / 4) as int),
            b64_digit((b[0] % 4) * 16 + b[1] / 16),
            b64_digit((b[1] % 16) * 4 + b[2] / 64),
            b64_digit((b[2] % 64) as int),
        ] + base64_standard(b.skip(3))
    }
}

/// Calls `base64::engine::general_purpose::STANDARD.encode`: standard
/// alphabet, padded. The crate panics when the encoded length overflows
/// `usize`, which `requires` rules out.
#[verifier::external_body]
fn base64_encode(bytes: &[u8]) -> (r: String)
    requires
        bytes.len() / 3 * 4 + 4 <= usize::MAX,
    ensures
        r@ == base64_standard(bytes@),
{
    base64::engine::general_purpose::STANDARD.encode(bytes)
}

pub open spec fn spec_python_script(base: Seq<char>, payload_bytes: Option<Seq<u8>>) -> Seq<char> {
    match payload_bytes {
        Some(b) => "import json as _json, base64 as _b64\nPAYLOAD = _json.loads(_b64.b64decode(\""@
            + base64_standard(b) + "\").decode())\n"@ + base,
        None => base,
    }
}

/// The script of a Python automation, with the trigger payload (already
/// rendered as JSON) exposed as a `PAYLOAD` dict; the JSON travels base64
/// encoded so that no quoting can break the script.
pub fn python_script(base: &str, payload_json: Option<&str>) -> (r: String)
    requires
        payload_json matches Some(p) ==> vstd::utf8::encode_utf8(p@).len() / 3 * 4 + 4 <= usize::MAX,
    ensures
        r@ == spec_python_script(
            base@,
            match payload_json {
                Some(p) => Some(vstd::utf8::encode_utf8(p@)),
                None => None,
            },
        ),
{
    match payload_json {
        Some(p) => {
            let encoded = base64_encode(p.as_bytes());
            let mut s = "import json as _json, base64 as _b64\nPAYLOAD = _json.loads(_b64.b64decode(\"".to_owned();
            push_str(&mut s, encoded.as_str());
            push_str(&mut s, "\").decode())\n");
            push_str(&mut s, base);
            s
        },
        None => base.to_owned(),
    }
}

// ---------------------------------------------------------------------------
// One thread's runs.
// ---------------------------------------------------------------------------

/// Whether a thread's agent is running, and which run.
#[derive(Clone, Copy, Debug, PartialEq, Eq, Structural)]
pub enum ThreadStatus {
    Idle,
    Running { run_id: u128 },
}

/// A thread's runs: the one running, and the requests waiting for it to
/// end, oldest first.
pub struct RunQueue<T> {
    pub status: ThreadStatus,
    pub queued: Vec<(u128, T)>,
}

impl<T> RunQueue<T> {
    pub fn new() -> (q: RunQueue<T>)
        ensures
            q.status == ThreadStatus::Idle,
            q.queued@.len() == 0,
    {
        RunQueue { status: ThreadStatus::Idle, queued: Vec::new() }
    }

    /// A request arrives: when the thread is idle it starts at once (and is
    /// returned to be run); otherwise it waits behind the others.
    pub fn send(&mut self, run_id: u128, request: T) -> (r: Option<(u128, T)>)
        ensures
            old(self).status == ThreadStatus::Idle ==> r == Some((run_id, request))
                && final(self).status == (ThreadStatus::Running { run_id }) && final(self).queued@
                == old(self).queued@,
            old(self).status != ThreadStatus::Idle ==> r is None && final(self).status == old(
                self,
            ).status && final(self).queued@ == old(self).queued@.push((run_id, request)),
    {
        match self.status {
            ThreadStatus::Idle => {
                self.status = ThreadStatus::Running { run_id };
                Some((run_id, request))
            },
            ThreadStatus::Running { .. } => {
                self.queued.push((run_id, request));
                None
            },
        }
    }

    /// The running run ended: finished, failed or cancelled.
    pub fn finish(&mut self)
        ensures
            final(self).status == ThreadStatus::Idle,
            final(self).queued@ == old(self).queued@,
    {
        self.status = ThreadStatus::Idle;
    }

    /// When the thread is idle, the oldest waiting request starts (and is
    /// returned to be run).
    pub fn drain(&mut self) -> (r: Option<(u128, T)>)
        ensures
            old(self).status == ThreadStatus::Idle && old(self).queued@.len() > 0 ==> r == Some(
                old(self).queued@[0],
            ) && final(self).queued@ == old(self).queued@.drop_first() && final(self).status == (
            ThreadStatus::Running { run_id: old(self).queued@[0].0 }),
            !(old(self).status == ThreadStatus::Idle && old(self).queued@.len() > 0) ==> r is None
                && final(self).status == old(self).status && final(self).queued@ == old(
                self,
            ).queued@,
    {
        if self.status != ThreadStatus::Idle || self.queued.len() == 0 {
            return None;
        }
        let next = self.queued.remove(0);
        self.status = ThreadStatus::Running { run_id: next.0 };
        Some(next)
    }
}

// ---------------------------------------------------------------------------
// Sequence numbers of a thread.
// ---------------------------------------------------------------------------

/// A thread's counters: the seq of the last event it published and the seq
/// its next message gets. Neither ever goes back, so a reloaded thread
/// continues where the journal and the message table left off.
pub struct SeqCounters {
    pub last_event_seq: u64,
    pub next_message_seq: u64,
}

/// A stored seq as an unsigned number: `None` when it is missing or negative.
pub open spec fn stored_seq(s: Option<i64>) -> Option<u64> {
    match s {
        Some(v) => if v >= 0 {
            Some(v as u64)
        } else {
            None
        },
        None => None,
    }
}

/// Every stored message seq is present and not negative.
pub open spec fn seqs_valid(message_seqs: Seq<Option<i64>>) -> bool {
    forall|i: int| 0 <= i < message_seqs.len() ==> (#[trigger] stored_seq(message_seqs[i])) is Some
}

/// The seq after the last stored message (0 for a thread without messages).
pub open spec fn next_after(message_seqs: Seq<Option<i64>>) -> u64 {
    if message_seqs.len() == 0 {
        0
    } else {
        (stored_seq(message_seqs.last()).unwrap() + 1) as u64
    }
}

/// The counters of a thread that is loaded again: the message seqs stored
/// for it in ascending order, and the largest seq in its event journal.
/// `None` when a stored message seq is missing or negative; a journal seq
/// that is missing or negative counts as 0.
pub fn resume_counters(message_seqs: &[Option<i64>], max_event_seq: Option<i64>) -> (r: Option<SeqCounters>)
    ensures
        r is Some <==> seqs_valid(message_seqs@),
        r matches Some(c) ==> c.next_message_seq == next_after(message_seqs@) && c.last_event_seq
            == match stored_seq(max_event_seq) {
            Some(v) => v,
            None => 0u64,
        },
{
    let mut next: u64 = 0;
    let mut i: usize = 0;
    while i < message_seqs.len()
        invariant
            i <= message_seqs.len(),
            seqs_valid(message_seqs@.take(i as int)),
            next == next_after(message_seqs@.take(i as int)),
        decreases message_seqs.len() - i,
    {
        match message_seqs[i] {
            Some(v) => {
                if v < 0 {
                    proof {
                        assert(stored_seq(message_seqs@[i as int]) is None);
                    }
                    return None;
                }
                next = v as u64 + 1;
            },
            None => {
                proof {
                    assert(stored_seq(message_seqs@[i as int]) is None);
                }
                return None;
            },
        }
        i += 1;
        proof {
            let t = message_seqs@.take(i as int);
            assert(t.last() == message_seqs@[i - 1]);
            assert forall|k: int| 0 <= k < t.len() implies (#[trigger] stored_seq(t[k])) is Some by {
                if k < i - 1 {
                    assert(t[k] == message_seqs@.take(i - 1)[k]);
                }
            }
        }
    }
    assert(message_seqs@.take(message_seqs.len() as int) == message_seqs@);
    let last_event_seq: u64 = match max_event_seq {
        Some(v) => if v >= 0 {
            v as u64
        } else {
            0
        },
        None => 0,
    };
    Some(SeqCounters { last_event_seq, next_message_seq: next })
}

/// Messages loaded in ascending seq order all lie below the seq the next
/// message gets.
pub proof fn lemma_resumed_message_seq_is_fresh(message_seqs: Seq<Option<i64>>)
    requires
        seqs_valid(message_seqs),
        forall|i: int, j: int|
            0 <= i < j < message_seqs.len() ==> stored_seq(#[trigger] message_seqs[i]).unwrap()
                <= stored_seq(#[trigger] message_seqs[j]).unwrap(),
    ensures
        forall|i: int|
            0 <= i < message_seqs.len() ==> stored_seq(#[trigger] message_seqs[i]).unwrap()
                < next_after(message_seqs),
{
    if message_seqs.len() > 0 {
        let n = message_seqs.len() - 1;
        assert(stored_seq(message_seqs[n]) is Some);
        assert forall|i: int| 0 <= i < message_seqs.len() implies stored_seq(
            #[trigger] message_seqs[i],
        ).unwrap() < next_after(message_seqs) by {
            assert(stored_seq(message_seqs[i]) is Some);
            if i < n {
                assert(stored_seq(message_seqs[i]).unwrap() <= stored_seq(message_seqs[n]).unwrap());
            }
        }
    }
}

impl SeqCounters {
    /// The seq of the next message; the counter moves on by one.
    pub fn take_message_seq(&mut self) -> (r: u64)
        requires
            old(self).next_message_seq < u64::MAX,
        ensures
            r == old(self).next_message_seq,
            final(self).next_message_seq == old(self).next_message_seq + 1,
            final(self).last_event_seq == old(self).last_event_seq,
    {
        let seq = self.next_message_seq;
        self.next_message_seq = seq + 1;
        seq
    }

    /// The seq of the next published event: one after the last.
    pub fn next_event_seq(&mut self) -> (r: u64)
        requires
            old(self).last_event_seq < u64::MAX,
        ensures
            r == old(self).last_event_seq + 1,
            final(self).last_event_seq == r,
            final(self).next_message_seq == old(self).next_message_seq,
    {
        self.last_event_seq = self.last_event_seq + 1;
        self.last_event_seq
    }
}

// ---------------------------------------------------------------------------
// Links in the system prompt.
// ---------------------------------------------------------------------------

/// The link-related pieces the system prompt is assembled from.
pub struct PromptLinks {
    /// The configured public URL without trailing slashes.
    pub public_url: Option<String>,
    /// What file download links start with: the public URL over Telegram,
    /// where only absolute links render, and nothing on the web.
    pub base_url: String,
    /// How to link a workspace file in a reply (empty without a thread and
    /// a writable directory).
    pub file_link_example: String,
    /// The extra writable directories, each as a quoted path under the
    /// user's home, separated by commas.
    pub writable_extra: String,
}

pub open spec fn spec_public_url(public_url: Option<Seq<char>>) -> Option<Seq<char>> {
    match public_url {
        Some(u) => Some(crate::text::trim_end_by(u, crate::text::Strip::Exactly('/'))),
        None => None,
    }
}

pub open spec fn spec_base_url(telegram: bool, public_url: Option<Seq<char>>) -> Seq<char> {
    if telegram {
        match spec_public_url(public_url) {
            Some(u) => u,
            None => Seq::empty(),
        }
    } else {
        Seq::empty()
    }
}

pub open spec fn spec_file_link_example(
    telegram: bool,
    public_url: Option<Seq<char>>,
    thread_id: Option<u128>,
    writable_root: Option<Seq<char>>,
) -> Seq<char> {
    match (thread_id, writable_root) {
        (Some(id), Some(root)) => if telegram {
            "Example: `"@ + root + "/report.pdf` -> `[report.pdf]("@ + spec_base_url(telegram, public_url)
                + "/api/threads/"@ + crate::turn::hyphenated_text(id) + "/files/report.pdf)`."@
        } else {
            "When linking to a file in a user-facing response, use an HTML anchor, not Markdown: `<a href=\"/api/threads/"@
                + crate::turn::hyphenated_text(id) + "/files/report.pdf\">report.pdf</a>`."@
        },
        _ => Seq::empty(),
    }
}

/// The extra writable directories, each quoted under the user's home,
/// joined with `, `.
pub open spec fn spec_writable_extra(dirs: Seq<Seq<char>>) -> Seq<char>
    decreases dirs.len(),
{
    if dirs.len() == 0 {
        Seq::empty()
    } else if dirs.len() == 1 {
        "`"@ + crate::vfs::mounted::USER_HOME@ + "/"@ + dirs[0] + "`"@
    } else {
        spec_writable_extra(dirs.drop_last()) + ", "@ + ("`"@ + crate::vfs::mounted::USER_HOME@ + "/"@
            + dirs.last() + "`"@)
    }
}

/// Computes the link-related pieces of the system prompt.
pub fn prompt_links(
    telegram: bool,
    public_url: Option<&str>,
    thread_id: Option<u128>,
    writable_root: Option<&str>,
    writable_extra: &[String],
) -> (r: PromptLinks)
    ensures
        crate::skills::opt_view(r.public_url) == spec_public_url(
            match public_url {
                Some(u) => Some(u@),
                None => None,
            },
        ),
        r.base_url@ == spec_base_url(
            telegram,
            match public_url {
                Some(u) => Some(u@),
                None => None,
            },
        ),
        r.file_link_example@ == spec_file_link_example(
            telegram,
            match public_url {
                Some(u) => Some(u@),
                None => None,
            },
            thread_id,
            match writable_root {
                Some(w) => Some(w@),
                None => None,
            },
        ),
        r.writable_extra@ == spec_writable_extra(writable_extra@.map_values(|d: String| d@)),
{
    let ghost pu = match public_url {
        Some(u) => Some(u@),
        None => None::<Seq<char>>,
    };
    let trimmed_url: Option<String> = match public_url {
        Some(u) => {
            let cs = crate::text::chars_of(u);
            Some(crate::text::string_of(crate::text::trim_end_chars(cs.as_slice(), '/').as_slice()))
        },
        None => None,
    };
    let base_url = if telegram {
        match &trimmed_url {
            Some(u) => u.clone(),
            None => String::new(),
        }
    } else {
        String::new()
    };
    let file_link_example = match (thread_id, writable_root) {
        (Some(id), Some(root)) => {
            let idt = crate::turn::uuid_text(id);
            if telegram {
                let mut e = "Example: `".to_owned();
                push_str(&mut e, root);
                push_str(&mut e, "/report.pdf` -> `[report.pdf](");
                push_str(&mut e, base_url.as_str());
                push_str(&mut e, "/api/threads/");
                push_str(&mut e, idt.as_str());
                push_str(&mut e, "/files/report.pdf)`.");
                e
            } else {
                let mut e = "When linking to a file in a user-facing response, use an HTML anchor, not Markdown: `<a href=\"/api/threads/".to_owned();
                push_str(&mut e, idt.as_str());
                push_str(&mut e, "/files/report.pdf\">report.pdf</a>`.");
                e
            }
        },
        _ => String::new(),
    };
    let ghost dv = writable_extra@.map_values(|d: String| d@);
    let mut extra = String::new();
    let mut i: usize = 0;
    while i < writable_extra.len()
        invariant
            i <= writable_extra.len(),
            dv == writable_extra@.map_values(|d: String| d@),
            extra@ == spec_writable_extra(dv.take(i as int)),
        decreases writable_extra.len() - i,
    {
        let ghost before = extra@;
        if i > 0 {
            push_str(&mut extra, ", ");
        }
        push_str(&mut extra, "`");
        push_str(&mut extra, crate::vfs::mounted::USER_HOME);
        push_str(&mut extra, "/");
        push_str(&mut extra, writable_extra[i].as_str());
        push_str(&mut extra, "`");
        proof {
            let t = dv.take(i + 1);
            assert(t.drop_last() =~= dv.take(i as int));
            assert(t.last() == writable_extra@[i as int]@);
            if i == 0 {
                assert(dv.take(0) =~= Seq::<Seq<char>>::empty());
                assert(t.len() == 1);
                assert(extra@ =~= "`"@ + crate::vfs::mounted::USER_HOME@ + "/"@ + t[0] + "`"@);
            } else {
                assert(extra@ =~= before + ", "@ + ("`"@ + crate::vfs::mounted::USER_HOME@ + "/"@ + t.last() + "`"@));
            }
        }
        i += 1;
    }
    assert(dv.take(writable_extra.len() as int) =~= dv);
    PromptLinks { public_url: trimmed_url, base_url, file_link_example, writable_extra: extra }
}

} // verus!
