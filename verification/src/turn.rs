//! What a running agent turn keeps while its events stream in: the tool
//! calls of its latest message and the results waiting to be recorded in
//! call order, and, for a subagent, the text of the message it is writing.
use vstd::prelude::*;

use crate::skills::push_str;
use crate::skill_store::{hex_digit, simple_text};
use crate::text::{chars_of, join, lemma_split_nonempty, split, split_on, str_is, views};

verus! {

broadcast use vstd::string::group_string_axioms;

/// A tool call as the agent streamed it.
#[derive(Clone, Debug)]
pub struct ToolCall {
    pub id: String,
    pub name: String,
    pub arguments: String,
}

pub struct ToolCallV {
    pub id: Seq<char>,
    pub name: Seq<char>,
    pub arguments: Seq<char>,
}

impl View for ToolCall {
    type V = ToolCallV;

    open spec fn view(&self) -> ToolCallV {
        ToolCallV { id: self.id@, name: self.name@, arguments: self.arguments@ }
    }
}

pub open spec fn calls_of(v: Seq<ToolCall>) -> Seq<ToolCallV> {
    v.map_values(|c: ToolCall| c@)
}

fn copy_call(c: &ToolCall) -> (r: ToolCall)
    ensures
        r@ == c@,
{
    ToolCall { id: c.id.clone(), name: c.name.clone(), arguments: c.arguments.clone() }
}

fn copy_calls(v: &Vec<ToolCall>) -> (r: Vec<ToolCall>)
    ensures
        calls_of(r@) == calls_of(v@),
{
    let mut out: Vec<ToolCall> = Vec::new();
    let mut i: usize = 0;
    while i < v.len()
        invariant
            i <= v.len(),
            calls_of(out@) == calls_of(v@).take(i as int),
        decreases v.len() - i,
    {
        let ghost before = calls_of(out@);
        out.push(copy_call(&v[i]));
        assert(calls_of(out@) =~= before.push(v@[i as int]@));
        assert(calls_of(v@).take(i + 1) =~= calls_of(v@).take(i as int).push(v@[i as int]@));
        i += 1;
    }
    assert(calls_of(v@).take(i as int) =~= calls_of(v@));
    out
}

/// The calls worth recording on their message: those with a name.
pub open spec fn named_calls(v: Seq<ToolCallV>) -> Seq<ToolCallV>
    decreases v.len(),
{
    if v.len() == 0 {
        Seq::empty()
    } else if v.last().name.len() == 0 {
        named_calls(v.drop_last())
    } else {
        named_calls(v.drop_last()).push(v.last())
    }
}

/// The calls to record on their message, or `None` when none has a name.
pub fn calls_to_record(calls: &[ToolCall]) -> (r: Option<Vec<ToolCall>>)
    ensures
        match r {
            Some(v) => calls_of(v@) == named_calls(calls_of(calls@)) && v@.len() > 0,
            None => named_calls(calls_of(calls@)).len() == 0,
        },
{
    let ghost cv = calls_of(calls@);
    let mut out: Vec<ToolCall> = Vec::new();
    let mut i: usize = 0;
    while i < calls.len()
        invariant
            cv == calls_of(calls@),
            cv.len() == calls@.len(),
            i <= calls.len(),
            calls_of(out@) == named_calls(cv.take(i as int)),
        decreases calls.len() - i,
    {
        assert(cv.take(i + 1).drop_last() == cv.take(i as int));
        assert(cv.take(i + 1).last() == calls@[i as int]@);
        if !calls[i].name.as_str().is_empty() {
            let ghost before = calls_of(out@);
            out.push(copy_call(&calls[i]));
            assert(calls_of(out@) =~= before.push(calls@[i as int]@));
        }
        i += 1;
    }
    assert(cv.take(i as int) == cv);
    if out.len() == 0 {
        None
    } else {
        Some(out)
    }
}

// ---------------------------------------------------------------------------
// Results waiting for their turn.
// ---------------------------------------------------------------------------

/// Results by call id, at most one per id.
pub struct Pending {
    pub entries: Vec<(String, String)>,
}

pub open spec fn pending_map(s: Seq<(String, String)>) -> Map<Seq<char>, Seq<char>>
    decreases s.len(),
{
    if s.len() == 0 {
        Map::empty()
    } else {
        pending_map(s.drop_last()).insert(s.last().0@, s.last().1@)
    }
}

/// No id occurs twice.
pub open spec fn distinct_ids(s: Seq<(String, String)>) -> bool {
    forall|i: int, j: int| 0 <= i < j < s.len() ==> (#[trigger] s[i]).0@ != (#[trigger] s[j]).0@
}

impl View for Pending {
    type V = Map<Seq<char>, Seq<char>>;

    open spec fn view(&self) -> Map<Seq<char>, Seq<char>> {
        pending_map(self.entries@)
    }
}

proof fn lemma_pending_absent(s: Seq<(String, String)>, k: Seq<char>)
    requires
        forall|j: int| 0 <= j < s.len() ==> (#[trigger] s[j]).0@ != k,
    ensures
        !pending_map(s).contains_key(k),
    decreases s.len(),
{
    if s.len() > 0 {
        lemma_pending_absent(s.drop_last(), k);
    }
}

proof fn lemma_pending_at(s: Seq<(String, String)>, i: int)
    requires
        0 <= i < s.len(),
        distinct_ids(s),
    ensures
        pending_map(s).contains_key(s[i].0@),
        pending_map(s)[s[i].0@] == s[i].1@,
    decreases s.len(),
{
    if i < s.len() - 1 {
        lemma_pending_at(s.drop_last(), i);
    }
}

proof fn lemma_pending_update(s: Seq<(String, String)>, i: int, e: (String, String))
    requires
        0 <= i < s.len(),
        s[i].0@ == e.0@,
        distinct_ids(s),
    ensures
        pending_map(s.update(i, e)) == pending_map(s).insert(e.0@, e.1@),
    decreases s.len(),
{
    let t = s.update(i, e);
    if i == s.len() - 1 {
        assert(t.drop_last() == s.drop_last());
        assert(pending_map(t) =~= pending_map(s).insert(e.0@, e.1@));
    } else {
        assert(t.drop_last() == s.drop_last().update(i, e));
        lemma_pending_update(s.drop_last(), i, e);
        assert(s[s.len() - 1].0@ != e.0@);
        assert(pending_map(t) =~= pending_map(s).insert(e.0@, e.1@));
    }
}

proof fn lemma_pending_remove(s: Seq<(String, String)>, i: int)
    requires
        0 <= i < s.len(),
        distinct_ids(s),
    ensures
        pending_map(s.remove(i)) == pending_map(s).remove(s[i].0@),
    decreases s.len(),
{
    let t = s.remove(i);
    let k = s[i].0@;
    if i == s.len() - 1 {
        assert(t == s.drop_last());
        assert forall|j: int| 0 <= j < t.len() implies (#[trigger] t[j]).0@ != k by {
            assert(t[j] == s[j]);
        }
        lemma_pending_absent(t, k);
        assert(pending_map(t) =~= pending_map(s).remove(k));
    } else {
        assert(t.drop_last() == s.drop_last().remove(i));
        lemma_pending_remove(s.drop_last(), i);
        assert(t.last() == s.last());
        assert(s.last().0@ != k);
        assert(pending_map(t) =~= pending_map(s).remove(k));
    }
}

impl Pending {
    pub fn new() -> (p: Pending)
        ensures
            p@ == Map::<Seq<char>, Seq<char>>::empty(),
            distinct_ids(p.entries@),
    {
        Pending { entries: Vec::new() }
    }

    fn find(&self, id: &str) -> (r: Option<usize>)
        ensures
            match r {
                Some(i) => i < self.entries@.len() && self.entries@[i as int].0@ == id@,
                None => forall|j: int|
                    0 <= j < self.entries@.len() ==> (#[trigger] self.entries@[j]).0@ != id@,
            },
    {
        let target = chars_of(id);
        let mut i: usize = 0;
        while i < self.entries.len()
            invariant
                i <= self.entries@.len(),
                target@ == id@,
                forall|j: int| 0 <= j < i ==> (#[trigger] self.entries@[j]).0@ != id@,
            decreases self.entries.len() - i,
        {
            if str_is(self.entries[i].0.as_str(), target.as_slice()) {
                return Some(i);
            }
            i += 1;
        }
        None
    }

    /// Keeps `result` for the call `id`, replacing one kept before.
    pub fn insert(&mut self, id: String, result: String)
        requires
            distinct_ids(old(self).entries@),
        ensures
            distinct_ids(final(self).entries@),
            final(self)@ == old(self)@.insert(id@, result@),
    {
        match self.find(id.as_str()) {
            Some(i) => {
                proof {
                    lemma_pending_update(self.entries@, i as int, (id, result));
                }
                self.entries.set(i, (id, result));
            },
            None => {
                let ghost s = self.entries@;
                self.entries.push((id, result));
                assert(self.entries@.drop_last() == s);
            },
        }
    }

    /// Takes out the result kept for `id`.
    pub fn take(&mut self, id: &str) -> (r: Option<String>)
        requires
            distinct_ids(old(self).entries@),
        ensures
            distinct_ids(final(self).entries@),
            match r {
                Some(x) => old(self)@.contains_key(id@) && old(self)@[id@] == x@,
                None => !old(self)@.contains_key(id@),
            },
            final(self)@ == old(self)@.remove(id@),
    {
        match self.find(id) {
            Some(i) => {
                proof {
                    lemma_pending_at(self.entries@, i as int);
                    lemma_pending_remove(self.entries@, i as int);
                }
                let ghost s = self.entries@;
                let (_, x) = self.entries.remove(i);
                assert(self.entries@ == s.remove(i as int));
                Some(x)
            },
            None => {
                proof {
                    lemma_pending_absent(self.entries@, id@);
                    assert(self@ =~= self@.remove(id@));
                }
                None
            },
        }
    }
}

// ---------------------------------------------------------------------------
// Tool calls and their results.
// ---------------------------------------------------------------------------

/// The tool calls of one message and the results not yet recorded; results
/// are recorded in the order of the calls, `next` being the first call
/// whose result is not recorded yet.
pub struct ToolQueue {
    pub calls: Vec<ToolCall>,
    pub results: Pending,
    pub next: usize,
    pub message: Option<u128>,
}

pub struct ToolQueueV {
    pub calls: Seq<ToolCallV>,
    pub results: Map<Seq<char>, Seq<char>>,
    pub next: nat,
    pub message: Option<u128>,
}

impl View for ToolQueue {
    type V = ToolQueueV;

    open spec fn view(&self) -> ToolQueueV {
        ToolQueueV {
            calls: calls_of(self.calls@),
            results: self.results@,
            next: self.next as nat,
            message: self.message,
        }
    }
}

impl ToolQueue {
    pub open spec fn wf(&self) -> bool {
        distinct_ids(self.results.entries@)
    }

    pub fn new() -> (q: ToolQueue)
        ensures
            q.wf(),
            q@.calls.len() == 0,
            q@.results == Map::<Seq<char>, Seq<char>>::empty(),
            q@.next == 0,
            q@.message is None,
    {
        ToolQueue { calls: Vec::new(), results: Pending::new(), next: 0, message: None }
    }

    /// A call of the message `anchor` (the latest message) starts. Calls of
    /// an earlier message, and their waiting results, are dropped first.
    /// Returns the message and its calls so far, to record on it, when
    /// there is a message.
    pub fn start_call(&mut self, anchor: Option<u128>, call: ToolCall) -> (r: Option<
        (u128, Vec<ToolCall>),
    >)
        requires
            old(self).wf(),
        ensures
            final(self).wf(),
            ({
                let fresh = old(self)@.message != anchor;
                &&& final(self)@.message == anchor
                &&& final(self)@.calls == (if fresh {
                    Seq::empty()
                } else {
                    old(self)@.calls
                }).push(call@)
                &&& final(self)@.results == (if fresh {
                    Map::empty()
                } else {
                    old(self)@.results
                })
                &&& final(self)@.next == (if fresh {
                    0
                } else {
                    old(self)@.next
                })
            }),
            match r {
                Some((m, v)) => anchor == Some(m) && calls_of(v@) == final(self)@.calls,
                None => anchor is None,
            },
    {
        if self.message != anchor {
            self.calls = Vec::new();
            self.results = Pending::new();
            self.next = 0;
            self.message = anchor;
        }
        let ghost before = calls_of(self.calls@);
        self.calls.push(call);
        assert(calls_of(self.calls@) =~= before.push(self.calls@.last()@));
        match anchor {
            Some(m) => Some((m, copy_calls(&self.calls))),
            None => None,
        }
    }

    /// A result for the call `id` arrives.
    pub fn add_result(&mut self, id: String, result: String)
        requires
            old(self).wf(),
        ensures
            final(self).wf(),
            final(self)@ == (ToolQueueV {
                results: old(self)@.results.insert(id@, result@),
                ..old(self)@
            }),
    {
        self.results.insert(id, result);
    }

    /// The result of call `next`, taken out, when it has arrived; results
    /// of later calls wait for it.
    pub fn next_ready(&mut self) -> (r: Option<(String, String)>)
        requires
            old(self).wf(),
        ensures
            final(self).wf(),
            final(self)@.calls == old(self)@.calls,
            final(self)@.next == old(self)@.next,
            final(self)@.message == old(self)@.message,
            match r {
                Some((id, x)) => {
                    &&& old(self)@.next < old(self)@.calls.len()
                    &&& id@ == old(self)@.calls[old(self)@.next as int].id
                    &&& old(self)@.results.contains_key(id@)
                    &&& x@ == old(self)@.results[id@]
                    &&& final(self)@.results == old(self)@.results.remove(id@)
                },
                None => {
                    &&& final(self)@.results == old(self)@.results
                    &&& (old(self)@.next >= old(self)@.calls.len() || !old(self)@.results.contains_key(
                        old(self)@.calls[old(self)@.next as int].id,
                    ))
                },
            },
    {
        if self.next >= self.calls.len() {
            return None;
        }
        let id = self.calls[self.next].id.clone();
        match self.results.take(id.as_str()) {
            Some(x) => Some((id, x)),
            None => {
                assert(self.results@ =~= old(self).results@);
                None
            },
        }
    }

    /// The result handed out last has been recorded.
    pub fn mark_recorded(&mut self)
        requires
            old(self)@.next < old(self)@.calls.len(),
        ensures
            final(self).wf() == old(self).wf(),
            final(self)@ == (ToolQueueV { next: old(self)@.next + 1, ..old(self)@ }),
    {
        assert(calls_of(self.calls@).len() == self.calls@.len());
        let n = self.calls.len();
        assert(self.next < n);
        self.next = self.next + 1;
    }
}

/// What recording the ready results does: while the result of call `next`
/// has arrived, it is handed out and `next` moves on.
pub open spec fn drain(q: ToolQueueV) -> Seq<(Seq<char>, Seq<char>)>
    decreases q.calls.len() - q.next,
{
    if q.next < q.calls.len() && q.results.contains_key(q.calls[q.next as int].id) {
        let id = q.calls[q.next as int].id;
        seq![(id, q.results[id])] + drain(
            ToolQueueV { results: q.results.remove(id), next: q.next + 1, ..q },
        )
    } else {
        Seq::empty()
    }
}

/// The calls' ids from `i` on are all different.
pub open spec fn distinct_calls_from(calls: Seq<ToolCallV>, i: int) -> bool {
    forall|a: int, b: int| i <= a < b < calls.len() ==> calls[a].id != calls[b].id
}

/// Results are recorded in the order of the calls: recording the ready
/// results hands out the results of the calls from `next` on, in call
/// order, each with the result that arrived for it, and stops at the first
/// call whose result has not arrived.
pub proof fn lemma_results_follow_call_order(q: ToolQueueV)
    requires
        q.next <= q.calls.len(),
        distinct_calls_from(q.calls, q.next as int),
    ensures
        q.next + drain(q).len() <= q.calls.len(),
        forall|i: int|
            0 <= i < drain(q).len() ==> (#[trigger] drain(q)[i]).0 == q.calls[q.next + i].id
                && q.results.contains_key(q.calls[q.next + i].id) && drain(q)[i].1 == q.results[q.calls[q.next + i].id],
        q.next + drain(q).len() < q.calls.len() ==> !q.results.contains_key(
            q.calls[(q.next + drain(q).len()) as int].id,
        ),
    decreases q.calls.len() - q.next,
{
    if q.next < q.calls.len() && q.results.contains_key(q.calls[q.next as int].id) {
        let id = q.calls[q.next as int].id;
        let q2 = ToolQueueV { results: q.results.remove(id), next: q.next + 1, ..q };
        lemma_results_follow_call_order(q2);
        let d = drain(q);
        let d2 = drain(q2);
        assert(d == seq![(id, q.results[id])] + d2);
        assert forall|i: int| 0 <= i < d.len() implies (#[trigger] d[i]).0 == q.calls[q.next + i].id
            && q.results.contains_key(q.calls[q.next + i].id) && d[i].1 == q.results[q.calls[q.next + i].id] by {
            if i > 0 {
                assert(d[i] == d2[i - 1]);
                assert(q.calls[q.next + i].id != id);
            }
        }
        if q.next + d.len() < q.calls.len() {
            assert(q.calls[(q.next + d.len()) as int].id != id);
        }
    }
}

/// The queue once the ready results are recorded: `next` moves past every
/// call whose result has arrived, and those results leave the waiting map.
pub open spec fn settle(q: ToolQueueV) -> ToolQueueV
    decreases q.calls.len() - q.next,
{
    if q.next < q.calls.len() && q.results.contains_key(q.calls[q.next as int].id) {
        let id = q.calls[q.next as int].id;
        settle(ToolQueueV { results: q.results.remove(id), next: q.next + 1, ..q })
    } else {
        q
    }
}

/// The first call from `k` on whose id is not in `g`.
pub open spec fn first_gap(calls: Seq<ToolCallV>, g: Set<Seq<char>>, k: int) -> int
    decreases calls.len() - k,
{
    if 0 <= k < calls.len() && g.contains(calls[k].id) {
        first_gap(calls, g, k + 1)
    } else {
        k
    }
}

proof fn lemma_first_gap(calls: Seq<ToolCallV>, g: Set<Seq<char>>, k: int)
    requires
        0 <= k <= calls.len(),
    ensures
        k <= first_gap(calls, g, k) <= calls.len(),
        forall|i: int| k <= i < first_gap(calls, g, k) ==> g.contains(#[trigger] calls[i].id),
        first_gap(calls, g, k) < calls.len() ==> !g.contains(calls[first_gap(calls, g, k)].id),
    decreases calls.len() - k,
{
    if k < calls.len() && g.contains(calls[k].id) {
        lemma_first_gap(calls, g, k + 1);
    }
}

/// Recording from `next` on, when the results waiting for the calls from
/// `next` on are those whose ids are in `g`: the results of the calls up to
/// the first one not in `g` come out in call order, and those leave the map.
proof fn lemma_settle(q: ToolQueueV, g: Set<Seq<char>>)
    requires
        q.next <= q.calls.len(),
        distinct_calls_from(q.calls, q.next as int),
        forall|i: int| q.next <= i < q.calls.len() ==> (q.results.contains_key(#[trigger] q.calls[i].id) <==> g.contains(q.calls[i].id)),
    ensures
        ({
            let m = first_gap(q.calls, g, q.next as int);
            &&& drain(q) == Seq::new((m - q.next) as nat, |i: int| (q.calls[q.next + i].id, q.results[q.calls[q.next + i].id]))
            &&& settle(q).next == m
            &&& settle(q).calls == q.calls
            &&& settle(q).message == q.message
            &&& forall|id: Seq<char>| #[trigger] settle(q).results.contains_key(id) <==> (q.results.contains_key(id) && forall|i: int| q.next <= i < m ==> q.calls[i].id != id)
            &&& forall|id: Seq<char>| #[trigger] settle(q).results.contains_key(id) ==> settle(q).results[id] == q.results[id]
        }),
    decreases q.calls.len() - q.next,
{
    lemma_first_gap(q.calls, g, q.next as int);
    let m = first_gap(q.calls, g, q.next as int);
    if q.next < q.calls.len() && q.results.contains_key(q.calls[q.next as int].id) {
        let id = q.calls[q.next as int].id;
        let q2 = ToolQueueV { results: q.results.remove(id), next: q.next + 1, ..q };
        assert forall|i: int| q2.next <= i < q2.calls.len() implies (q2.results.contains_key(#[trigger] q2.calls[i].id) <==> g.contains(q2.calls[i].id)) by {
            assert(q.calls[i].id != id);
        }
        lemma_settle(q2, g);
        assert(first_gap(q.calls, g, q.next as int) == first_gap(q.calls, g, q.next + 1int));
        let d2 = drain(q2);
        let expected = Seq::new((m - q.next) as nat, |i: int| (q.calls[q.next + i].id, q.results[q.calls[q.next + i].id]));
        assert(drain(q) == seq![(id, q.results[id])] + d2);
        assert forall|i: int| 0 <= i < expected.len() implies drain(q)[i] == #[trigger] expected[i] by {
            if i > 0 {
                assert(d2[i - 1] == (q.calls[q2.next + (i - 1)].id, q2.results[q.calls[q2.next + (i - 1)].id]));
                assert(q.calls[q.next + i].id != id);
            }
        }
        assert(drain(q) =~= expected);
        assert forall|x: Seq<char>| #[trigger] settle(q).results.contains_key(x) <==> (q.results.contains_key(x) && forall|i: int| q.next <= i < m ==> q.calls[i].id != x) by {
            if q.results.contains_key(x) && x != id && (forall|i: int| q2.next <= i < m ==> q.calls[i].id != x) {
                assert forall|i: int| q.next <= i < m implies q.calls[i].id != x by {
                    if i > q.next {
                        assert(q2.next <= i < m);
                    }
                }
            }
            if q.results.contains_key(x) && forall|i: int| q.next <= i < m ==> q.calls[i].id != x {
                assert(q.calls[q.next as int].id != x);
            }
        }
    } else {
        assert(m == q.next) by {
            if q.next < q.calls.len() {
                assert(!g.contains(q.calls[q.next as int].id));
            }
        }
        assert(drain(q) =~= Seq::<(Seq<char>, Seq<char>)>::empty());
    }
}

/// Results arrive one by one for `fs` (call id and result, in the order
/// they finish); after each, the ready results are recorded. Gives the
/// queue at the end and the results recorded, in the order recorded.
pub open spec fn finish_all(q: ToolQueueV, fs: Seq<(Seq<char>, Seq<char>)>) -> (ToolQueueV, Seq<(Seq<char>, Seq<char>)>)
    decreases fs.len(),
{
    if fs.len() == 0 {
        (q, Seq::empty())
    } else {
        let (q1, o1) = finish_all(q, fs.drop_last());
        let q2 = ToolQueueV { results: q1.results.insert(fs.last().0, fs.last().1), ..q1 };
        (settle(q2), o1 + drain(q2))
    }
}

/// The result that finished for call `id`.
pub open spec fn result_of(fs: Seq<(Seq<char>, Seq<char>)>, id: Seq<char>) -> Seq<char> {
    fs[choose|t: int| 0 <= t < fs.len() && fs[t].0 == id].1
}

pub open spec fn distinct_finishes(fs: Seq<(Seq<char>, Seq<char>)>) -> bool {
    forall|a: int, b: int| 0 <= a < b < fs.len() ==> (#[trigger] fs[a]).0 != (#[trigger] fs[b]).0
}

/// The ids among the first `j` finishes.
pub open spec fn finished_ids(fs: Seq<(Seq<char>, Seq<char>)>, j: int) -> Set<Seq<char>> {
    Set::new(|id: Seq<char>| exists|t: int| 0 <= t < j && #[trigger] fs[t].0 == id)
}

proof fn lemma_first_gap_from(calls: Seq<ToolCallV>, g: Set<Seq<char>>, k: int)
    requires
        0 <= k <= calls.len(),
        forall|i: int| 0 <= i < k ==> g.contains(#[trigger] calls[i].id),
    ensures
        first_gap(calls, g, 0) == first_gap(calls, g, k),
    decreases k,
{
    if k > 0 {
        lemma_first_gap_from(calls, g, k - 1);
    }
}

proof fn lemma_finish_prefix(q: ToolQueueV, fs: Seq<(Seq<char>, Seq<char>)>, j: int)
    requires
        q.next == 0,
        q.results == Map::<Seq<char>, Seq<char>>::empty(),
        distinct_calls_from(q.calls, 0),
        distinct_finishes(fs),
        0 <= j <= fs.len(),
    ensures
        ({
            let (qj, oj) = finish_all(q, fs.take(j));
            let g = finished_ids(fs, j);
            let k = first_gap(q.calls, g, 0);
            &&& qj.calls == q.calls
            &&& qj.message == q.message
            &&& qj.next == k
            &&& forall|i: int| k <= i < q.calls.len() ==> (qj.results.contains_key(#[trigger] q.calls[i].id) <==> g.contains(q.calls[i].id))
            &&& forall|id: Seq<char>| #[trigger] qj.results.contains_key(id) ==> qj.results[id] == result_of(fs, id)
            &&& oj == Seq::new(k as nat, |i: int| (q.calls[i].id, result_of(fs, q.calls[i].id)))
        }),
    decreases j,
{
    let n = q.calls.len();
    if j == 0 {
        assert(fs.take(0) =~= Seq::<(Seq<char>, Seq<char>)>::empty());
        let g = finished_ids(fs, 0);
        lemma_first_gap(q.calls, g, 0);
        if 0 < n {
            assert(!g.contains(q.calls[0].id));
        }
        assert(first_gap(q.calls, g, 0) == 0);
        assert(Seq::new(0, |i: int| (q.calls[i].id, result_of(fs, q.calls[i].id))) =~= Seq::<(Seq<char>, Seq<char>)>::empty());
    } else {
        lemma_finish_prefix(q, fs, j - 1);
        let p = fs.take(j);
        assert(p.drop_last() =~= fs.take(j - 1));
        assert(p.last() == fs[j - 1]);
        let (q1, o1) = finish_all(q, fs.take(j - 1));
        let g1 = finished_ids(fs, j - 1);
        let g = finished_ids(fs, j);
        let k = first_gap(q.calls, g1, 0);
        let x = fs[j - 1].0;
        let r = fs[j - 1].1;
        assert(g =~= g1.insert(x)) by {
            assert forall|id: Seq<char>| g.contains(id) <==> g1.insert(x).contains(id) by {
                if g.contains(id) {
                    let t = choose|t: int| 0 <= t < j && #[trigger] fs[t].0 == id;
                    if t < j - 1 {
                        assert(g1.contains(id));
                    }
                }
                if g1.contains(id) {
                    let t = choose|t: int| 0 <= t < j - 1 && #[trigger] fs[t].0 == id;
                    assert(0 <= t < j && fs[t].0 == id);
                }
                if id == x {
                    assert(fs[j - 1].0 == id);
                }
            }
        }
        assert(result_of(fs, x) == r) by {
            assert(fs[j - 1].0 == x);
            let t = choose|t: int| 0 <= t < fs.len() && fs[t].0 == x;
            if t != j - 1 {
                if t < j - 1 {
                    assert(fs[t].0 != fs[j - 1].0);
                } else {
                    assert(fs[j - 1].0 != fs[t].0);
                }
            }
        }
        let q2 = ToolQueueV { results: q1.results.insert(x, r), ..q1 };
        lemma_first_gap(q.calls, g1, 0);
        assert(k <= n);
        assert forall|i: int| q2.next <= i < q2.calls.len() implies (q2.results.contains_key(#[trigger] q2.calls[i].id) <==> g.contains(q2.calls[i].id)) by {
            assert(q1.results.contains_key(q.calls[i].id) <==> g1.contains(q.calls[i].id));
        }
        lemma_settle(q2, g);
        assert forall|i: int| 0 <= i < k implies g.contains(#[trigger] q.calls[i].id) by {
            assert(g1.contains(q.calls[i].id));
        }
        lemma_first_gap_from(q.calls, g, k);
        let m = first_gap(q.calls, g, 0);
        lemma_first_gap(q.calls, g, k);
        let s2 = settle(q2);
        assert(finish_all(q, p) == (s2, o1 + drain(q2)));
        assert forall|i: int| m <= i < n implies (s2.results.contains_key(#[trigger] q.calls[i].id) <==> g.contains(q.calls[i].id)) by {
            assert forall|i2: int| k <= i2 < m implies q.calls[i2].id != q.calls[i].id by {
                assert(i2 < i);
            }
        }
        assert forall|id: Seq<char>| #[trigger] s2.results.contains_key(id) implies s2.results[id] == result_of(fs, id) by {
            assert(q2.results.contains_key(id));
            if id != x {
                assert(q1.results.contains_key(id));
            }
        }
        let expected = Seq::new(m as nat, |i: int| (q.calls[i].id, result_of(fs, q.calls[i].id)));
        let d = drain(q2);
        assert forall|i: int| 0 <= i < expected.len() implies (o1 + d)[i] == #[trigger] expected[i] by {
            if i >= k {
                let c = q.calls[i].id;
                assert(d[i - k] == (q.calls[k + (i - k)].id, q2.results[q.calls[k + (i - k)].id]));
                assert(g.contains(c));
                assert(q2.results.contains_key(c));
                if c != x {
                    assert(q1.results.contains_key(c));
                }
            }
        }
        assert(o1 + d =~= expected);
    }
}

/// Tool results are recorded in the order of the calls, whatever order they
/// finish in: when each call of a message gets its result exactly once and
/// the ready results are recorded after each arrival, every call is
/// recorded once, in call order, with its own result.
pub proof fn lemma_results_recorded_in_call_order(q: ToolQueueV, fs: Seq<(Seq<char>, Seq<char>)>)
    requires
        q.next == 0,
        q.results == Map::<Seq<char>, Seq<char>>::empty(),
        distinct_calls_from(q.calls, 0),
        distinct_finishes(fs),
        forall|i: int| 0 <= i < q.calls.len() ==> exists|t: int| 0 <= t < fs.len() && #[trigger] fs[t].0 == #[trigger] q.calls[i].id,
    ensures
        finish_all(q, fs).1 == Seq::new(q.calls.len(), |i: int| (q.calls[i].id, result_of(fs, q.calls[i].id))),
        finish_all(q, fs).0.next == q.calls.len(),
{
    lemma_finish_prefix(q, fs, fs.len() as int);
    assert(fs.take(fs.len() as int) =~= fs);
    let g = finished_ids(fs, fs.len() as int);
    lemma_first_gap(q.calls, g, 0);
    let k = first_gap(q.calls, g, 0);
    if k < q.calls.len() {
        let t = choose|t: int| 0 <= t < fs.len() && #[trigger] fs[t].0 == q.calls[k].id;
        assert(g.contains(q.calls[k].id));
    }
}

// ---------------------------------------------------------------------------
// A subagent's message.
// ---------------------------------------------------------------------------

/// What a subagent's turn keeps: the text and thinking of the message it is
/// writing, that message and the one it wrote last, and its tool calls.
pub struct SubagentState {
    pub content: String,
    pub thinking: Option<String>,
    pub current: Option<u128>,
    pub last: Option<u128>,
    pub tools: ToolQueue,
}

impl SubagentState {
    pub open spec fn wf(&self) -> bool {
        self.tools.wf()
    }

    /// The message part of the state.
    pub open spec fn sview(&self) -> SubagentV {
        SubagentV {
            content: self.content@,
            thinking: crate::skills::opt_view(self.thinking),
            current: self.current,
            last: self.last,
        }
    }

    pub fn new() -> (s: SubagentState)
        ensures
            s.wf(),
            s.content@ == Seq::<char>::empty(),
            s.thinking is None,
            s.current is None,
            s.last is None,
    {
        SubagentState {
            content: String::new(),
            thinking: None,
            current: None,
            last: None,
            tools: ToolQueue::new(),
        }
    }

    /// The subagent starts an assistant message.
    pub fn message_started(&mut self, id: u128)
        ensures
            final(self).content@ == Seq::<char>::empty(),
            final(self).thinking is None,
            final(self).current == Some(id),
            final(self).last == old(self).last,
            final(self).tools == old(self).tools,
            final(self).sview() == sub_step(old(self).sview(), SubEvent::Started(id)),
    {
        self.content = String::new();
        self.thinking = None;
        self.current = Some(id);
    }

    /// Text of message `id` arrives; it counts only for the current message.
    pub fn text_delta(&mut self, id: u128, delta: &str)
        ensures
            final(self).content@ == if old(self).current == Some(id) {
                old(self).content@ + delta@
            } else {
                old(self).content@
            },
            final(self).thinking == old(self).thinking,
            final(self).current == old(self).current,
            final(self).last == old(self).last,
            final(self).tools == old(self).tools,
            final(self).sview() == sub_step(old(self).sview(), SubEvent::Text(id, delta@)),
    {
        if self.current == Some(id) {
            push_str(&mut self.content, delta);
        }
    }

    /// Thinking of message `id` arrives; it counts only for the current
    /// message.
    pub fn thinking_delta(&mut self, id: u128, delta: &str)
        ensures
            crate::skills::opt_view(final(self).thinking) == if old(self).current == Some(id) {
                Some(
                    match old(self).thinking {
                        Some(t) => t@,
                        None => Seq::<char>::empty(),
                    } + delta@,
                )
            } else {
                crate::skills::opt_view(old(self).thinking)
            },
            final(self).content == old(self).content,
            final(self).current == old(self).current,
            final(self).last == old(self).last,
            final(self).tools == old(self).tools,
            final(self).sview() == sub_step(old(self).sview(), SubEvent::Thinking(id, delta@)),
    {
        if self.current == Some(id) {
            let mut t = match self.thinking.take() {
                Some(t) => t,
                None => String::new(),
            };
            push_str(&mut t, delta);
            self.thinking = Some(t);
        }
    }

    /// Message `id` is complete: when it is the current message, it becomes
    /// the last one and its text and thinking are returned to be recorded.
    pub fn message_committed(&mut self, id: u128) -> (r: Option<(String, Option<String>)>)
        ensures
            match r {
                Some((c, t)) => {
                    &&& old(self).current == Some(id)
                    &&& c@ == old(self).content@
                    &&& crate::skills::opt_view(t) == crate::skills::opt_view(old(self).thinking)
                    &&& final(self).current is None
                    &&& final(self).last == Some(id)
                },
                None => {
                    &&& old(self).current != Some(id)
                    &&& final(self).current == old(self).current
                    &&& final(self).last == old(self).last
                },
            },
            final(self).content == old(self).content,
            final(self).thinking == old(self).thinking,
            final(self).tools == old(self).tools,
            final(self).sview() == sub_step(old(self).sview(), SubEvent::Committed(id)),
            record_view(r) == sub_record(old(self).sview(), SubEvent::Committed(id)),
    {
        if self.current != Some(id) {
            return None;
        }
        self.current = None;
        self.last = Some(id);
        Some((self.content.clone(), crate::skills::copy_opt(&self.thinking)))
    }
}

/// The message part of a subagent's state.
pub struct SubagentV {
    pub content: Seq<char>,
    pub thinking: Option<Seq<char>>,
    pub current: Option<u128>,
    pub last: Option<u128>,
}

/// What a subagent reports about its message.
pub enum SubEvent {
    Started(u128),
    Text(u128, Seq<char>),
    Thinking(u128, Seq<char>),
    Committed(u128),
}

/// The message state after one event.
pub open spec fn sub_step(v: SubagentV, e: SubEvent) -> SubagentV {
    match e {
        SubEvent::Started(id) => SubagentV {
            content: Seq::empty(),
            thinking: None,
            current: Some(id),
            last: v.last,
        },
        SubEvent::Text(id, d) => if v.current == Some(id) {
            SubagentV { content: v.content + d, ..v }
        } else {
            v
        },
        SubEvent::Thinking(id, d) => if v.current == Some(id) {
            SubagentV {
                thinking: Some(
                    match v.thinking {
                        Some(t) => t,
                        None => Seq::empty(),
                    } + d,
                ),
                ..v
            }
        } else {
            v
        },
        SubEvent::Committed(id) => if v.current == Some(id) {
            SubagentV { current: None, last: Some(id), ..v }
        } else {
            v
        },
    }
}

/// What an event hands over to be recorded: a commit of the current
/// message hands over its text and thinking.
pub open spec fn sub_record(v: SubagentV, e: SubEvent) -> Option<(Seq<char>, Option<Seq<char>>)> {
    match e {
        SubEvent::Committed(id) => if v.current == Some(id) {
            Some((v.content, v.thinking))
        } else {
            None
        },
        _ => None,
    }
}

pub open spec fn record_view(r: Option<(String, Option<String>)>) -> Option<(Seq<char>, Option<Seq<char>>)> {
    match r {
        Some((c, t)) => Some((c@, crate::skills::opt_view(t))),
        None => None,
    }
}

/// The state after a run of events.
pub open spec fn sub_run(v: SubagentV, evs: Seq<SubEvent>) -> SubagentV
    decreases evs.len(),
{
    if evs.len() == 0 {
        v
    } else {
        sub_step(sub_run(v, evs.drop_last()), evs.last())
    }
}

/// Whether an event starts a message or commits message `m`.
pub open spec fn ends_or_starts(e: SubEvent, m: u128) -> bool {
    e is Started || e == SubEvent::Committed(m)
}

/// The text deltas of message `m`, joined.
pub open spec fn text_of(m: u128, evs: Seq<SubEvent>) -> Seq<char>
    decreases evs.len(),
{
    if evs.len() == 0 {
        Seq::empty()
    } else {
        text_of(m, evs.drop_last()) + match evs.last() {
            SubEvent::Text(id, d) => if id == m {
                d
            } else {
                Seq::empty()
            },
            _ => Seq::empty(),
        }
    }
}

/// The thinking deltas of message `m`, joined; `None` when there is none.
pub open spec fn thinking_of(m: u128, evs: Seq<SubEvent>) -> Option<Seq<char>>
    decreases evs.len(),
{
    if evs.len() == 0 {
        None
    } else {
        let before = thinking_of(m, evs.drop_last());
        match evs.last() {
            SubEvent::Thinking(id, d) => if id == m {
                Some(
                    match before {
                        Some(t) => t,
                        None => Seq::empty(),
                    } + d,
                )
            } else {
                before
            },
            _ => before,
        }
    }
}

proof fn lemma_sub_run_current(v: SubagentV, m: u128, evs: Seq<SubEvent>)
    requires
        v.current == Some(m),
        v.content == Seq::<char>::empty(),
        v.thinking is None,
        forall|i: int| 0 <= i < evs.len() ==> !ends_or_starts(#[trigger] evs[i], m),
    ensures
        sub_run(v, evs).current == Some(m),
        sub_run(v, evs).content == text_of(m, evs),
        sub_run(v, evs).thinking == thinking_of(m, evs),
    decreases evs.len(),
{
    if evs.len() == 0 {
        assert(text_of(m, evs) =~= Seq::<char>::empty());
    } else {
        let d = evs.drop_last();
        assert forall|i: int| 0 <= i < d.len() implies !ends_or_starts(#[trigger] d[i], m) by {
            assert(d[i] == evs[i]);
        }
        lemma_sub_run_current(v, m, d);
        assert(!ends_or_starts(evs[evs.len() - 1], m));
        let w = sub_run(v, d);
        match evs.last() {
            SubEvent::Text(id, t) => {
                if id != m {
                    assert(text_of(m, evs) =~= text_of(m, d) + Seq::<char>::empty());
                }
            },
            SubEvent::Thinking(id, t) => {
                assert(text_of(m, evs) =~= text_of(m, d) + Seq::<char>::empty());
            },
            _ => {
                assert(text_of(m, evs) =~= text_of(m, d) + Seq::<char>::empty());
            },
        }
    }
}

/// A subagent's message is recorded with exactly what arrived for it: after
/// it starts, whatever text and thinking deltas (for it or for other
/// messages) and commits of other messages come, its commit hands over the
/// text deltas of that message joined in order, and its thinking deltas
/// joined (`None` when there were none); other events hand over nothing.
pub proof fn lemma_committed_message_holds_its_deltas(v: SubagentV, m: u128, evs: Seq<SubEvent>)
    requires
        forall|i: int| 0 <= i < evs.len() ==> !ends_or_starts(#[trigger] evs[i], m),
    ensures
        sub_record(sub_run(sub_step(v, SubEvent::Started(m)), evs), SubEvent::Committed(m))
            == Some((text_of(m, evs), thinking_of(m, evs))),
        forall|i: int|
            0 <= i < evs.len() ==> sub_record(
                sub_run(sub_step(v, SubEvent::Started(m)), evs.take(i)),
                #[trigger] evs[i],
            ) is None,
{
    let v1 = sub_step(v, SubEvent::Started(m));
    lemma_sub_run_current(v1, m, evs);
    assert forall|i: int| 0 <= i < evs.len() implies sub_record(
        sub_run(v1, evs.take(i)),
        #[trigger] evs[i],
    ) is None by {
        let t = evs.take(i);
        assert forall|k: int| 0 <= k < t.len() implies !ends_or_starts(#[trigger] t[k], m) by {
            assert(t[k] == evs[k]);
        }
        lemma_sub_run_current(v1, m, t);
        assert(!ends_or_starts(evs[i], m));
    }
}

// ---------------------------------------------------------------------------
// The root agent's messages.
// ---------------------------------------------------------------------------

/// An assistant message of the root agent being written: its id, the text
/// shown so far (what the output sanitizer gives), its thinking and the
/// format it is written in.
pub struct RootMessage {
    pub id: u128,
    pub content: String,
    pub thinking: Option<String>,
    pub format: crate::runner::MessageFormat,
}

/// A message as it is shown while it is written.
pub struct InProgress {
    pub message_id: u128,
    pub run_id: u128,
    pub content: String,
    pub thinking: Option<String>,
    pub format: crate::runner::MessageFormat,
}

/// The root agent's open messages (each id once), the message committed
/// last, and the message shown as in progress.
pub struct RootMessages {
    pub open: Vec<RootMessage>,
    pub last: Option<u128>,
    pub in_progress: Option<InProgress>,
}

pub struct RootMessageV {
    pub content: Seq<char>,
    pub thinking: Option<Seq<char>>,
    pub format: crate::runner::MessageFormat,
}

pub struct InProgressV {
    pub message_id: u128,
    pub run_id: u128,
    pub content: Seq<char>,
    pub thinking: Option<Seq<char>>,
    pub format: crate::runner::MessageFormat,
}

pub struct RootMessagesV {
    pub open: Map<u128, RootMessageV>,
    pub last: Option<u128>,
    pub in_progress: Option<InProgressV>,
}

pub open spec fn root_message_view(m: RootMessage) -> RootMessageV {
    RootMessageV { content: m.content@, thinking: crate::skills::opt_view(m.thinking), format: m.format }
}

pub open spec fn open_map(v: Seq<RootMessage>) -> Map<u128, RootMessageV> {
    Map::new(
        |id: u128| exists|i: int| 0 <= i < v.len() && v[i].id == id,
        |id: u128| root_message_view(v[choose|i: int| 0 <= i < v.len() && v[i].id == id]),
    )
}

impl View for RootMessages {
    type V = RootMessagesV;

    open spec fn view(&self) -> RootMessagesV {
        RootMessagesV {
            open: open_map(self.open@),
            last: self.last,
            in_progress: match self.in_progress {
                Some(p) => Some(
                    InProgressV {
                        message_id: p.message_id,
                        run_id: p.run_id,
                        content: p.content@,
                        thinking: crate::skills::opt_view(p.thinking),
                        format: p.format,
                    },
                ),
                None => None,
            },
        }
    }
}

/// What is recorded of a message: its text and thinking.
pub open spec fn record_of(r: Option<(String, Option<String>)>) -> Option<(Seq<char>, Option<Seq<char>>)> {
    match r {
        Some((c, t)) => Some((c@, crate::skills::opt_view(t))),
        None => None,
    }
}

pub open spec fn distinct_open(v: Seq<RootMessage>) -> bool {
    forall|i: int, j: int| 0 <= i < j < v.len() ==> (#[trigger] v[i]).id != (#[trigger] v[j]).id
}

proof fn lemma_open_at(v: Seq<RootMessage>, i: int)
    requires
        distinct_open(v),
        0 <= i < v.len(),
    ensures
        open_map(v).contains_key(v[i].id),
        open_map(v)[v[i].id] == root_message_view(v[i]),
{
    let id = v[i].id;
    let k = choose|k: int| 0 <= k < v.len() && v[k].id == id;
    if k != i {
        if k < i {
            assert(v[k].id != v[i].id);
        } else {
            assert(v[i].id != v[k].id);
        }
    }
}

/// Replacing, removing or adding entry `i` changes the map only there.
proof fn lemma_open_update(v: Seq<RootMessage>, i: int, m: RootMessage)
    requires
        distinct_open(v),
        0 <= i < v.len(),
        m.id == v[i].id,
    ensures
        distinct_open(v.update(i, m)),
        open_map(v.update(i, m)) == open_map(v).insert(m.id, root_message_view(m)),
{
    let w = v.update(i, m);
    assert forall|a: int, b: int| 0 <= a < b < w.len() implies (#[trigger] w[a]).id != (#[trigger] w[b]).id by {
        assert(v[a].id != v[b].id);
    }
    lemma_open_at(w, i);
    assert forall|id: u128| #[trigger] open_map(w).contains_key(id) <==> open_map(v).insert(m.id, root_message_view(m)).contains_key(id) by {
        if open_map(w).contains_key(id) {
            let k = choose|k: int| 0 <= k < w.len() && w[k].id == id;
            if k != i {
                assert(v[k].id == id);
            }
        }
        if open_map(v).contains_key(id) {
            let k = choose|k: int| 0 <= k < v.len() && v[k].id == id;
            assert(w[k].id == id);
        }
    }
    assert forall|id: u128| #[trigger] open_map(w).contains_key(id) implies open_map(w)[id] == open_map(v).insert(m.id, root_message_view(m))[id] by {
        let k = choose|k: int| 0 <= k < w.len() && w[k].id == id;
        lemma_open_at(w, k);
        if id != m.id {
            assert(k != i);
            lemma_open_at(v, k);
        }
    }
    assert(open_map(w) =~= open_map(v).insert(m.id, root_message_view(m)));
}

proof fn lemma_open_remove(v: Seq<RootMessage>, i: int)
    requires
        distinct_open(v),
        0 <= i < v.len(),
    ensures
        distinct_open(v.remove(i)),
        open_map(v.remove(i)) == open_map(v).remove(v[i].id),
{
    let w = v.remove(i);
    let id0 = v[i].id;
    assert forall|a: int, b: int| 0 <= a < b < w.len() implies (#[trigger] w[a]).id != (#[trigger] w[b]).id by {
        let a2 = if a < i { a } else { a + 1 };
        let b2 = if b < i { b } else { b + 1 };
        assert(w[a] == v[a2] && w[b] == v[b2]);
        assert(v[a2].id != v[b2].id);
    }
    assert forall|id: u128| #[trigger] open_map(w).contains_key(id) <==> open_map(v).remove(id0).contains_key(id) by {
        if open_map(w).contains_key(id) {
            let k = choose|k: int| 0 <= k < w.len() && w[k].id == id;
            let k2 = if k < i { k } else { k + 1 };
            assert(w[k] == v[k2]);
            assert(v[k2].id != v[i].id);
        }
        if open_map(v).remove(id0).contains_key(id) {
            let k = choose|k: int| 0 <= k < v.len() && v[k].id == id;
            assert(k != i);
            let k2 = if k < i { k } else { k - 1 };
            assert(w[k2] == v[k]);
        }
    }
    assert forall|id: u128| #[trigger] open_map(w).contains_key(id) implies open_map(w)[id] == open_map(v).remove(id0)[id] by {
        let k = choose|k: int| 0 <= k < w.len() && w[k].id == id;
        lemma_open_at(w, k);
        let k2 = if k < i { k } else { k + 1 };
        assert(w[k] == v[k2]);
        lemma_open_at(v, k2);
    }
    assert(open_map(w) =~= open_map(v).remove(id0));
}

impl RootMessages {
    pub open spec fn wf(&self) -> bool {
        distinct_open(self.open@)
    }

    pub fn new() -> (r: RootMessages)
        ensures
            r.wf(),
            r@.open == Map::<u128, RootMessageV>::empty(),
            r@.last is None,
            r@.in_progress is None,
    {
        let r = RootMessages { open: Vec::new(), last: None, in_progress: None };
        assert(open_map(r.open@) =~= Map::<u128, RootMessageV>::empty());
        r
    }

    fn find(&self, id: u128) -> (r: Option<usize>)
        requires
            self.wf(),
        ensures
            match r {
                Some(i) => i < self.open@.len() && self.open@[i as int].id == id,
                None => !open_map(self.open@).contains_key(id),
            },
    {
        let mut i: usize = 0;
        while i < self.open.len()
            invariant
                i <= self.open@.len(),
                forall|k: int| 0 <= k < i ==> self.open@[k].id != id,
            decreases self.open.len() - i,
        {
            if self.open[i].id == id {
                return Some(i);
            }
            i += 1;
        }
        None
    }

    /// The root agent starts assistant message `id`, written in `format`:
    /// it is open with no text and no thinking.
    pub fn message_started(&mut self, id: u128, format: crate::runner::MessageFormat)
        requires
            old(self).wf(),
        ensures
            final(self).wf(),
            final(self)@ == (RootMessagesV {
                open: old(self)@.open.insert(
                    id,
                    RootMessageV { content: Seq::empty(), thinking: None, format },
                ),
                ..old(self)@
            }),
    {
        let m = RootMessage { id, content: String::new(), thinking: None, format };
        assert(root_message_view(m) == RootMessageV { content: Seq::<char>::empty(), thinking: None, format });
        match self.find(id) {
            Some(i) => {
                proof {
                    lemma_open_update(self.open@, i as int, m);
                }
                self.open.set(i, m);
            },
            None => {
                let ghost before = self.open@;
                self.open.push(m);
                proof {
                    let w = self.open@;
                    assert forall|a: int, b: int| 0 <= a < b < w.len() implies (#[trigger] w[a]).id != (#[trigger] w[b]).id by {
                        if b == w.len() - 1 {
                            assert(!open_map(before).contains_key(id));
                            if w[a].id == id {
                                assert(before[a].id == id);
                            }
                        } else {
                            assert(before[a].id != before[b].id);
                        }
                    }
                    lemma_open_at(w, w.len() - 1);
                    assert forall|x: u128| #[trigger] open_map(w).contains_key(x) <==> open_map(before).insert(id, root_message_view(m)).contains_key(x) by {
                        if open_map(w).contains_key(x) && x != id {
                            let k = choose|k: int| 0 <= k < w.len() && w[k].id == x;
                            assert(k < before.len());
                            assert(before[k].id == x);
                        }
                        if open_map(before).contains_key(x) {
                            let k = choose|k: int| 0 <= k < before.len() && before[k].id == x;
                            assert(w[k].id == x);
                        }
                    }
                    assert forall|x: u128| #[trigger] open_map(w).contains_key(x) implies open_map(w)[x] == open_map(before).insert(id, root_message_view(m))[x] by {
                        let k = choose|k: int| 0 <= k < w.len() && w[k].id == x;
                        lemma_open_at(w, k);
                        if x != id {
                            assert(k < before.len());
                            assert(forall|a: int, b: int| 0 <= a < b < before.len() ==> (#[trigger] before[a]).id != (#[trigger] before[b]).id);
                            lemma_open_at(before, k);
                        }
                    }
                    assert(open_map(w) =~= open_map(before).insert(id, root_message_view(m)));
                }
            },
        }
    }

    /// Text of message `id` arrives; `shown` is the message's text as the
    /// output sanitizer shows it after the delta. When `id` is open, its text
    /// becomes `shown`, it is the message in progress of run `run_id`, and
    /// its text and thinking are returned to be saved; otherwise nothing
    /// changes.
    pub fn text_delta(&mut self, id: u128, shown: String, run_id: u128) -> (r: Option<(String, Option<String>)>)
        requires
            old(self).wf(),
        ensures
            final(self).wf(),
            old(self)@.open.contains_key(id) ==> {
                let m = old(self)@.open[id];
                let m2 = RootMessageV { content: shown@, ..m };
                &&& final(self)@.open == old(self)@.open.insert(id, m2)
                &&& final(self)@.last == old(self)@.last
                &&& final(self)@.in_progress == Some(
                    InProgressV {
                        message_id: id,
                        run_id,
                        content: shown@,
                        thinking: m.thinking,
                        format: m.format,
                    },
                )
                &&& record_of(r) == Some((shown@, m.thinking))
            },
            !old(self)@.open.contains_key(id) ==> final(self)@ == old(self)@ && r is None,
    {
        match self.find(id) {
            Some(i) => {
                let old_m = &self.open[i];
                proof {
                    lemma_open_at(self.open@, i as int);
                }
                let m = RootMessage {
                    id,
                    content: shown.clone(),
                    thinking: crate::skills::copy_opt(&old_m.thinking),
                    format: old_m.format,
                };
                let p = InProgress {
                    message_id: id,
                    run_id,
                    content: shown.clone(),
                    thinking: crate::skills::copy_opt(&old_m.thinking),
                    format: old_m.format,
                };
                let rec = (shown, crate::skills::copy_opt(&old_m.thinking));
                proof {
                    lemma_open_update(self.open@, i as int, m);
                }
                self.open.set(i, m);
                self.in_progress = Some(p);
                Some(rec)
            },
            None => None,
        }
    }

    /// Thinking of message `id` arrives: when `id` is open, it is appended
    /// to its thinking, and its text and thinking are returned to be saved.
    pub fn thinking_delta(&mut self, id: u128, delta: &str) -> (r: Option<(String, Option<String>)>)
        requires
            old(self).wf(),
        ensures
            final(self).wf(),
            old(self)@.open.contains_key(id) ==> {
                let m = old(self)@.open[id];
                let t = match m.thinking {
                    Some(t) => t,
                    None => Seq::empty(),
                } + delta@;
                &&& final(self)@.open == old(self)@.open.insert(id, RootMessageV { thinking: Some(t), ..m })
                &&& final(self)@.last == old(self)@.last
                &&& final(self)@.in_progress == old(self)@.in_progress
                &&& record_of(r) == Some((m.content, Some(t)))
            },
            !old(self)@.open.contains_key(id) ==> final(self)@ == old(self)@ && r is None,
    {
        match self.find(id) {
            Some(i) => {
                proof {
                    lemma_open_at(self.open@, i as int);
                }
                let old_m = &self.open[i];
                let mut t = match &old_m.thinking {
                    Some(t) => t.clone(),
                    None => String::new(),
                };
                push_str(&mut t, delta);
                let m = RootMessage {
                    id,
                    content: old_m.content.clone(),
                    thinking: Some(t.clone()),
                    format: old_m.format,
                };
                let rec = (old_m.content.clone(), Some(t));
                proof {
                    lemma_open_update(self.open@, i as int, m);
                }
                self.open.set(i, m);
                Some(rec)
            },
            None => None,
        }
    }

    /// Message `id` is committed; `finished` is its text as the output
    /// sanitizer finishes it. When `id` is open, it is closed with that text,
    /// becomes the last committed message, nothing is in progress any more,
    /// and its text and thinking are returned to be saved.
    pub fn message_committed(&mut self, id: u128, finished: String) -> (r: Option<(String, Option<String>)>)
        requires
            old(self).wf(),
        ensures
            final(self).wf(),
            old(self)@.open.contains_key(id) ==> {
                &&& final(self)@.open == old(self)@.open.remove(id)
                &&& final(self)@.last == Some(id)
                &&& final(self)@.in_progress is None
                &&& record_of(r) == Some((finished@, old(self)@.open[id].thinking))
            },
            !old(self)@.open.contains_key(id) ==> final(self)@ == old(self)@ && r is None,
    {
        match self.find(id) {
            Some(i) => {
                proof {
                    lemma_open_at(self.open@, i as int);
                    lemma_open_remove(self.open@, i as int);
                }
                let m = self.open.remove(i);
                self.last = Some(id);
                self.in_progress = None;
                Some((finished, m.thinking))
            },
            None => None,
        }
    }

    /// The run ends, one way or the other: nothing is in progress.
    pub fn run_ended(&mut self)
        requires
            old(self).wf(),
        ensures
            final(self).wf(),
            final(self)@ == (RootMessagesV { in_progress: None, ..old(self)@ }),
    {
        self.in_progress = None;
    }
}

// ---------------------------------------------------------------------------
// Agent paths.
// ---------------------------------------------------------------------------

/// The hyphenated lowercase text of a UUID: its 32 hexadecimal digits in
/// groups of 8, 4, 4, 4 and 12.
pub open spec fn hyphenated_text(u: u128) -> Seq<char> {
    let h = simple_text(u);
    h.subrange(0, 8) + seq!['-'] + h.subrange(8, 12) + seq!['-'] + h.subrange(12, 16) + seq!['-']
        + h.subrange(16, 20) + seq!['-'] + h.subrange(20, 32)
}

/// `Uuid::from_u128(u).to_string()`: the hyphenated lowercase form.
#[verifier::external_body]
pub(crate) fn uuid_text(u: u128) -> (r: String)
    ensures
        r@ == hyphenated_text(u),
{
    uuid::Uuid::from_u128(u).to_string()
}

/// The value of a hexadecimal digit, in either case.
pub open spec fn hex_value(c: char) -> Option<int> {
    if '0' <= c && c <= '9' {
        Some(c as int - 48)
    } else if 'a' <= c && c <= 'f' {
        Some(c as int - 87)
    } else if 'A' <= c && c <= 'F' {
        Some(c as int - 55)
    } else {
        None
    }
}

/// The number written by hexadecimal digits, most significant first.
pub open spec fn hex_number(s: Seq<char>) -> Option<int>
    decreases s.len(),
{
    if s.len() == 0 {
        Some(0)
    } else {
        match (hex_number(s.drop_last()), hex_value(s.last())) {
            (Some(v), Some(d)) => Some(v * 16 + d),
            _ => None,
        }
    }
}

/// The 32 digits of a hyphenated UUID: 36 characters, hyphens at 8, 13,
/// 18 and 23.
pub open spec fn unhyphenated(s: Seq<char>) -> Option<Seq<char>> {
    if s.len() == 36 && s[8] == '-' && s[13] == '-' && s[18] == '-' && s[23] == '-' {
        Some(s.subrange(0, 8) + s.subrange(9, 13) + s.subrange(14, 18) + s.subrange(19, 23) + s.subrange(24, 36))
    } else {
        None
    }
}

/// The digits of a UUID written in one of the forms `Uuid::parse_str`
/// reads: 32 digits; hyphenated; hyphenated between braces; or hyphenated
/// behind `urn:uuid:` in any case.
pub open spec fn uuid_digits(s: Seq<char>) -> Option<Seq<char>> {
    if s.len() == 32 {
        Some(s)
    } else if s.len() == 36 {
        unhyphenated(s)
    } else if s.len() == 38 && s[0] == '{' && s[37] == '}' {
        unhyphenated(s.subrange(1, 37))
    } else if s.len() == 45 && s.subrange(0, 9).map_values(|c: char| crate::text::ascii_lower(c)) == seq!['u', 'r', 'n', ':', 'u', 'u', 'i', 'd', ':'] {
        unhyphenated(s.subrange(9, 45))
    } else {
        None
    }
}

/// What `Uuid::parse_str(s)` reads, as a number (`as_u128`): the digits of
/// one of its forms, each a hexadecimal digit in either case.
pub open spec fn spec_parse_uuid(s: Seq<char>) -> Option<u128> {
    match uuid_digits(s) {
        Some(d) => match hex_number(d) {
            Some(v) => Some(v as u128),
            None => None,
        },
        None => None,
    }
}

/// `Uuid::parse_str(s).ok()`, as a number (`as_u128`). The crate parses the
/// bytes of `s`; a text with a non-ASCII character fails either way, so the
/// forms can be read on its characters.
#[verifier::external_body]
fn parse_uuid(s: &str) -> (r: Option<u128>)
    ensures
        r == spec_parse_uuid(s@),
{
    uuid::Uuid::parse_str(s).ok().map(|u| u.as_u128())
}

proof fn lemma_hex_digit_value(n: int)
    requires
        0 <= n < 16,
    ensures
        hex_value(hex_digit(n)) == Some(n),
{
}

/// The digits of `u` read back: the first `k` of them make `u / 16^(32-k)`.
proof fn lemma_simple_text_prefix(u: u128, k: int)
    requires
        0 <= k <= 32,
    ensures
        hex_number(simple_text(u).take(k)) == Some(u as int / vstd::arithmetic::power::pow(16, (32 - k) as nat)),
    decreases k,
{
    let h = simple_text(u);
    if k == 0 {
        assert(h.take(0) =~= Seq::<char>::empty());
        reveal_with_fuel(vstd::arithmetic::power::pow, 33);
        assert(vstd::arithmetic::power::pow(16, 32) == 0x1_0000_0000_0000_0000_0000_0000_0000_0000int);
        let big = vstd::arithmetic::power::pow(16, 32);
        assert(u as int / big == 0) by (nonlinear_arith)
            requires
                big == 0x1_0000_0000_0000_0000_0000_0000_0000_0000int,
                0 <= u < big,
        ;
    } else {
        lemma_simple_text_prefix(u, k - 1);
        let p = vstd::arithmetic::power::pow(16, (32 - k) as nat);
        vstd::arithmetic::power::lemma_pow_positive(16, (32 - k) as nat);
        assert(vstd::arithmetic::power::pow(16, (33 - k) as nat) == 16 * p) by {
            reveal(vstd::arithmetic::power::pow);
        }
        let x = u as int / p;
        assert(x >= 0) by (nonlinear_arith)
            requires
                u >= 0,
                p > 0,
                x == u as int / p,
        ;
        vstd::arithmetic::div_mod::lemma_div_denominator(u as int, p, 16);
        assert(u as int / (p * 16) == u as int / (16 * p)) by (nonlinear_arith);
        vstd::arithmetic::div_mod::lemma_fundamental_div_mod(x, 16);
        assert(h.take(k).drop_last() =~= h.take(k - 1));
        assert(h.take(k).last() == h[k - 1]);
        assert(h[k - 1] == hex_digit(x % 16));
        lemma_hex_digit_value(x % 16);
        assert((x / 16) * 16 + x % 16 == x) by (nonlinear_arith)
            requires
                x == 16 * (x / 16) + (x % 16),
        ;
    }
}

/// `Uuid::parse_str` reads back every text `to_string` writes.
proof fn lemma_parse_hyphenated(u: u128)
    ensures
        spec_parse_uuid(hyphenated_text(u)) == Some(u),
{
    let h = simple_text(u);
    let t = hyphenated_text(u);
    assert(t.len() == 36);
    assert(unhyphenated(t) == Some(h)) by {
        assert(t.subrange(0, 8) + t.subrange(9, 13) + t.subrange(14, 18) + t.subrange(19, 23) + t.subrange(24, 36) =~= h);
    }
    lemma_simple_text_prefix(u, 32);
    assert(h.take(32) =~= h);
    assert(vstd::arithmetic::power::pow(16, 0) == 1) by {
        reveal(vstd::arithmetic::power::pow);
    }
}

/// The path of agents as text: their ids joined by `/`.
pub open spec fn encoded_path(path: Seq<u128>) -> Seq<char> {
    join(path.map_values(|u: u128| hyphenated_text(u)), seq!['/'])
}

/// The ids read back from the parts of a text split at `/` that parse.
pub open spec fn parsed_parts(parts: Seq<Seq<char>>) -> Seq<u128>
    decreases parts.len(),
{
    if parts.len() == 0 {
        Seq::empty()
    } else {
        match spec_parse_uuid(parts.last()) {
            Some(u) => parsed_parts(parts.drop_last()).push(u),
            None => parsed_parts(parts.drop_last()),
        }
    }
}

/// The path of agents read back from its text (none without one).
pub open spec fn decoded_path(text: Option<Seq<char>>) -> Seq<u128> {
    match text {
        Some(t) => parsed_parts(split(t, '/')),
        None => Seq::empty(),
    }
}

proof fn lemma_hex_digit(n: int)
    requires
        0 <= n < 16,
    ensures
        hex_digit(n) != '/',
{
}

proof fn lemma_no_slash(u: u128)
    ensures
        !hyphenated_text(u).contains('/'),
{
    let h = simple_text(u);
    assert forall|i: int| 0 <= i < h.len() implies h[i] != '/' by {
        let d = vstd::arithmetic::power::pow(16, (31 - i) as nat);
        vstd::arithmetic::power::lemma_pow_positive(16, (31 - i) as nat);
        let n = (u as int / d) % 16;
        assert(0 <= n < 16);
        lemma_hex_digit(n);
    }
    let t = hyphenated_text(u);
    assert forall|i: int| 0 <= i < t.len() implies t[i] != '/' by {
        if i < 8 {
            assert(t[i] == h[i]);
        } else if 9 <= i < 13 {
            assert(t[i] == h[i - 1]);
        } else if 14 <= i < 18 {
            assert(t[i] == h[i - 2]);
        } else if 19 <= i < 23 {
            assert(t[i] == h[i - 3]);
        } else if 24 <= i {
            assert(t[i] == h[i - 4]);
        }
    }
}

pub(crate) proof fn lemma_split_plain(a: Seq<char>, b: Seq<char>, sep: char)
    requires
        !b.contains(sep),
    ensures
        split(a + b, sep) == split(a, sep).update(
            split(a, sep).len() - 1,
            split(a, sep).last() + b,
        ),
    decreases b.len(),
{
    lemma_split_nonempty(a, sep);
    if b.len() == 0 {
        assert(a + b =~= a);
        assert(split(a, sep).last() + b =~= split(a, sep).last());
        assert(split(a, sep).update(split(a, sep).len() - 1, split(a, sep).last()) =~= split(a, sep));
    } else {
        let b2 = b.drop_last();
        assert(!b2.contains(sep)) by {
            if b2.contains(sep) {
                let k = choose|k: int| 0 <= k < b2.len() && b2[k] == sep;
                assert(b[k] == sep);
            }
        }
        assert(b.last() != sep) by {
            assert(b[b.len() - 1] == b.last());
        }
        lemma_split_plain(a, b2, sep);
        assert((a + b).drop_last() =~= a + b2);
        assert((a + b).last() == b.last());
        let h = split(a + b2, sep);
        assert(h.last() == split(a, sep).last() + b2);
        assert(h.last().push(b.last()) =~= split(a, sep).last() + b);
        assert(h.update(h.len() - 1, h.last().push(b.last())) =~= split(a, sep).update(
            split(a, sep).len() - 1,
            split(a, sep).last() + b,
        ));
    }
}

pub(crate) proof fn lemma_split_join(parts: Seq<Seq<char>>, sep: char)
    requires
        parts.len() >= 1,
        forall|i: int| 0 <= i < parts.len() ==> !(#[trigger] parts[i]).contains(sep),
    ensures
        split(join(parts, seq![sep]), sep) == parts,
    decreases parts.len(),
{
    if parts.len() == 1 {
        lemma_split_plain(Seq::empty(), parts[0], sep);
        assert(Seq::<char>::empty() + parts[0] =~= parts[0]);
        assert(seq![Seq::<char>::empty()].update(0, Seq::<char>::empty() + parts[0]) =~= parts);
    } else {
        let dl = parts.drop_last();
        assert forall|i: int| 0 <= i < dl.len() implies !(#[trigger] dl[i]).contains(sep) by {
            assert(dl[i] == parts[i]);
        }
        lemma_split_join(dl, sep);
        let a = join(dl, seq![sep]);
        assert((a + seq![sep]).drop_last() =~= a);
        assert((a + seq![sep]).last() == sep);
        assert(split(a + seq![sep], sep) == split(a, sep).push(Seq::<char>::empty()));
        assert(!parts.last().contains(sep)) by {
            assert(parts[parts.len() - 1] == parts.last());
        }
        lemma_split_plain(a + seq![sep], parts.last(), sep);
        assert(Seq::<char>::empty() + parts.last() =~= parts.last());
        assert(dl.push(Seq::<char>::empty()).update(dl.len() as int, parts.last()) =~= parts);
    }
}

/// The path of agents as text, `None` for the root agent (an empty path).
pub fn encode_agent_path(path: &[u128]) -> (r: Option<String>)
    ensures
        match r {
            None => path@.len() == 0,
            Some(t) => path@.len() > 0 && t@ == encoded_path(path@),
        },
{
    if path.len() == 0 {
        return None;
    }
    let ghost pv = path@.map_values(|u: u128| hyphenated_text(u));
    let mut out = uuid_text(path[0]);
    let mut i: usize = 1;
    assert(pv.take(1) =~= seq![pv[0]]);
    while i < path.len()
        invariant
            pv == path@.map_values(|u: u128| hyphenated_text(u)),
            1 <= i <= path.len(),
            out@ == join(pv.take(i as int), seq!['/']),
        decreases path.len() - i,
    {
        let t = uuid_text(path[i]);
        let ghost before = out@;
        crate::text::push_char(&mut out, '/');
        push_str(&mut out, t.as_str());
        assert(pv.take(i + 1).drop_last() =~= pv.take(i as int));
        assert(pv.take(i + 1).last() == pv[i as int]);
        assert(out@ =~= before + seq!['/'] + t@);
        i += 1;
    }
    assert(pv.take(i as int) =~= pv);
    Some(out)
}

/// The path of agents read back from its text: the parts between `/` that
/// parse as ids. Reading back an encoded path gives the path.
pub fn decode_agent_path(text: Option<&str>) -> (r: Vec<u128>)
    ensures
        r@ == decoded_path(
            match text {
                Some(t) => Some(t@),
                None => None,
            },
        ),
        forall|p: Seq<u128>|
            p.len() > 0 && (text matches Some(t) && t@ == encoded_path(p)) ==> r@ == p,
{
    let t = match text {
        None => {
            return Vec::new();
        },
        Some(t) => t,
    };
    let parts = split_on(chars_of(t).as_slice(), '/');
    let ghost pv = views(parts@);
    let ghost enc = exists|p: Seq<u128>| p.len() > 0 && t@ == encoded_path(p);
    let ghost p = choose|p: Seq<u128>| p.len() > 0 && t@ == encoded_path(p);
    proof {
        if enc {
            let hv = p.map_values(|u: u128| hyphenated_text(u));
            assert forall|i: int| 0 <= i < hv.len() implies !(#[trigger] hv[i]).contains('/') by {
                lemma_no_slash(p[i]);
            }
            lemma_split_join(hv, '/');
            assert(pv == hv);
        }
    }
    let mut out: Vec<u128> = Vec::new();
    let mut i: usize = 0;
    while i < parts.len()
        invariant
            pv == views(parts@),
            pv.len() == parts@.len(),
            pv == split(t@, '/'),
            enc ==> pv == p.map_values(|u: u128| hyphenated_text(u)),
            i <= parts.len(),
            out@ == parsed_parts(pv.take(i as int)),
            enc ==> out@.len() == i,
            enc ==> forall|k: int, u: u128|
                0 <= k < i && #[trigger] pv[k] == #[trigger] hyphenated_text(u) ==> out@[k] == u,
        decreases parts.len() - i,
    {
        assert(pv.take(i + 1).drop_last() =~= pv.take(i as int));
        assert(pv.take(i + 1).last() == parts@[i as int]@);
        let part = crate::text::string_of(parts[i].as_slice());
        match parse_uuid(part.as_str()) {
            Some(u) => {
                let ghost before = out@;
                out.push(u);
                proof {
                    if enc {
                        assert(part@ == hyphenated_text(p[i as int]));
                        assert forall|k: int, w: u128|
                            0 <= k < i + 1 && #[trigger] pv[k] == #[trigger] hyphenated_text(w) implies out@[k] == w by {
                            if k < i {
                                assert(out@[k] == before[k]);
                            } else {
                                assert(part@ == hyphenated_text(w));
                                lemma_parse_hyphenated(w);
                            }
                        }
                    }
                }
            },
            None => {
                proof {
                    if enc {
                        assert(part@ == hyphenated_text(p[i as int]));
                    }
                    assert forall|u: u128| #[trigger] pv[i as int] == hyphenated_text(u) implies false by {
                        assert(part@ == hyphenated_text(u));
                        lemma_parse_hyphenated(u);
                    }
                }
            },
        }
        i += 1;
    }
    assert(pv.take(i as int) =~= pv);
    proof {
        assert forall|q: Seq<u128>| q.len() > 0 && (text matches Some(x) && x@ == encoded_path(q)) implies out@ == q by {
            assert(enc);
            let hq = q.map_values(|u: u128| hyphenated_text(u));
            assert forall|k: int| 0 <= k < hq.len() implies !(#[trigger] hq[k]).contains('/') by {
                lemma_no_slash(q[k]);
            }
            lemma_split_join(hq, '/');
            assert(pv == hq);
            assert forall|k: int| 0 <= k < q.len() implies out@[k] == q[k] by {
                assert(hq[k] == pv[k]);
                assert(pv[k] == hyphenated_text(q[k]));
            }
            assert(out@ =~= q);
        }
    }
    out
}

} // verus!
