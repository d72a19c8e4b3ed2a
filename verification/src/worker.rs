//! Background work for the user interface: only the latest answer is shown.
use crate::model::Filter;
use crate::text::{chars_of, trim_of, trimmed};
use std::collections::HashMap;
use vstd::prelude::*;

verus! {

broadcast use vstd::std_specs::hash::group_hash_axioms;

/// Jobs sent to the library's thread, by number.
pub struct LibWorker {
    pub seq: u64,
    /// The latest job whose answer is to be shown.
    pub render_seq: u64,
    /// The jobs without an answer, and whether theirs is to be shown.
    pub pending: HashMap<u64, bool>,
}

pub struct WorkerView {
    pub seq: u64,
    pub render_seq: u64,
    pub pending: Map<u64, bool>,
}

impl View for LibWorker {
    type V = WorkerView;

    open spec fn view(&self) -> WorkerView {
        WorkerView { seq: self.seq, render_seq: self.render_seq, pending: self.pending@ }
    }
}

impl WorkerView {
    /// The number of the next job.
    pub open spec fn next(self) -> u64 {
        self.seq.wrapping_add(1)
    }

    /// One more job. One whose answer is shown supersedes every earlier one.
    pub open spec fn submit(self, render: bool) -> WorkerView {
        WorkerView {
            seq: self.next(),
            render_seq: if render {
                self.next()
            } else {
                self.render_seq
            },
            pending: self.pending.insert(self.next(), render),
        }
    }

    /// Whether to act on an answer: it has to be awaited, and if it is to be shown, no later
    /// one may have superseded it.
    pub open spec fn acts_on(self, seq: u64) -> bool {
        self.pending.contains_key(seq) && (!self.pending[seq] || seq == self.render_seq)
    }

    /// One answer less to wait for.
    pub open spec fn done(self, seq: u64) -> WorkerView {
        WorkerView { pending: self.pending.remove(seq), ..self }
    }
}

impl LibWorker {
    pub fn new() -> (w: Self)
        ensures
            w@ == (WorkerView { seq: 0, render_seq: 0, pending: Map::empty() }),
    {
        LibWorker { seq: 0, render_seq: 0, pending: HashMap::new() }
    }

    /// Numbers a job.
    pub fn submit(&mut self, render: bool) -> (seq: u64)
        ensures
            seq == old(self)@.next(),
            final(self)@ == old(self)@.submit(render),
    {
        let seq: u64 = self.seq.wrapping_add(1);
        self.seq = seq;
        if render {
            self.render_seq = seq;
        }
        self.pending.insert(seq, render);
        seq
    }

    /// Takes an answer. Returns whether to act on it.
    pub fn done(&mut self, seq: u64) -> (act: bool)
        ensures
            act == old(self)@.acts_on(seq),
            final(self)@ == old(self)@.done(seq),
    {
        match self.pending.remove(&seq) {
            Some(render) => !render || seq == self.render_seq,
            None => false,
        }
    }

    /// Whether a job's answer is still awaited and would be shown.
    pub fn still_pending(&self, seq: u64) -> (b: bool)
        ensures
            b == (self@.render_seq == seq && self@.pending.contains_key(seq)),
    {
        self.render_seq == seq && self.pending.contains_key(&seq)
    }
}

/// The latest wins: of two jobs whose answers are to be shown, the answer of the first is
/// dropped from the moment the second is sent, and that of the second is shown.
pub proof fn law_latest_render_wins(w: WorkerView)
    ensures
        w.submit(true).acts_on(w.next()),
        !w.submit(true).submit(true).acts_on(w.next()),
        w.submit(true).submit(true).acts_on(w.submit(true).next()),
{
    assert(w.next() != w.submit(true).next());
}

/// An answer that is not for show is never dropped, whatever is sent after it.
pub proof fn law_actions_always_run(w: WorkerView, render: bool)
    ensures
        w.submit(false).submit(render).acts_on(w.next()),
{
    assert(w.next() != w.submit(false).next());
}

/// No answer is acted on twice.
pub proof fn law_answers_count_once(w: WorkerView, seq: u64)
    ensures
        !w.done(seq).acts_on(seq),
{
}

/// A message to the search thread.
pub enum SearchMsg {
    Query { seq: u64, text: String, filter: Filter },
    /// The library has changed.
    Reindex,
}

/// What a burst of messages comes down to.
pub struct Burst {
    pub latest: Option<(u64, String, Filter)>,
    pub reindex: bool,
}

/// The last query of a burst.
pub open spec fn last_query(ms: Seq<SearchMsg>) -> Option<(u64, String, Filter)>
    decreases ms.len(),
{
    if ms.len() == 0 {
        None
    } else {
        match ms.last() {
            SearchMsg::Query { seq, text, filter } => Some((seq, text, filter)),
            SearchMsg::Reindex => last_query(ms.drop_last()),
        }
    }
}

pub open spec fn asks_reindex(ms: Seq<SearchMsg>) -> bool {
    exists|i: int| 0 <= i < ms.len() && (#[trigger] ms[i]) is Reindex
}

impl Burst {
    pub open spec fn of(self, ms: Seq<SearchMsg>) -> bool {
        self.latest == last_query(ms) && self.reindex == asks_reindex(ms)
    }

    pub fn new() -> (b: Self)
        ensures
            b.of(Seq::empty()),
    {
        Burst { latest: None, reindex: false }
    }

    /// Takes one more message: a later query replaces an earlier one.
    pub fn take(&mut self, m: SearchMsg)
        ensures
            final(self).latest == (match m {
                SearchMsg::Query { seq, text, filter } => Some((seq, text, filter)),
                SearchMsg::Reindex => old(self).latest,
            }),
            final(self).reindex == (old(self).reindex || m is Reindex),
    {
        match m {
            SearchMsg::Query { seq, text, filter } => {
                self.latest = Some((seq, text, filter));
            },
            SearchMsg::Reindex => {
                self.reindex = true;
            },
        }
    }
}

proof fn lemma_burst_push(ms: Seq<SearchMsg>, m: SearchMsg)
    ensures
        asks_reindex(ms.push(m)) == (asks_reindex(ms) || m is Reindex),
        last_query(ms.push(m)) == (match m {
            SearchMsg::Query { seq, text, filter } => Some((seq, text, filter)),
            SearchMsg::Reindex => last_query(ms),
        }),
{
    assert(ms.push(m).drop_last() =~= ms);
    assert(ms.push(m)[ms.len() as int] == m);
    if asks_reindex(ms) {
        let i = choose|i: int| 0 <= i < ms.len() && (#[trigger] ms[i]) is Reindex;
        assert(ms.push(m)[i] is Reindex);
    }
    if asks_reindex(ms.push(m)) && !(m is Reindex) {
        let i = choose|i: int| 0 <= i < ms.push(m).len() && (#[trigger] ms.push(m)[i]) is Reindex;
        assert(ms[i] is Reindex);
    }
}

/// What a burst of messages comes down to: the last query, and whether to index again first.
pub fn coalesce(msgs: Vec<SearchMsg>) -> (b: Burst)
    ensures
        b.of(msgs@),
{
    let mut b = Burst::new();
    let mut rest = msgs;
    let ghost mut taken: Seq<SearchMsg> = Seq::empty();
    while rest.len() > 0
        invariant
            taken + rest@ == msgs@,
            b.of(taken),
        decreases rest@.len(),
    {
        let m = rest.remove(0);
        b.take(m);
        proof {
            lemma_burst_push(taken, m);
            taken = taken.push(m);
            assert(taken + rest@ =~= msgs@);
        }
    }
    assert(taken =~= msgs@);
    b
}

/// A count by which the latest of several things under way is told from the others.
pub struct Latest {
    pub seq: u64,
}

impl Latest {
    pub fn new() -> (l: Self)
        ensures
            l.seq == 0,
    {
        Latest { seq: 0 }
    }

    /// Begins another: it is now the latest.
    pub fn bump(&mut self) -> (seq: u64)
        ensures
            seq == old(self).seq.wrapping_add(1),
            final(self).seq == seq,
            seq != old(self).seq,
    {
        self.seq = self.seq.wrapping_add(1);
        self.seq
    }

    /// Whether nothing later has begun.
    pub fn is_current(&self, seq: u64) -> (b: bool)
        ensures
            b == (self.seq == seq),
    {
        self.seq == seq
    }

    /// The search text has changed. Returns the number to search under, or nothing if the
    /// text is blank and the results are to be cleared. Either way, what was under way is
    /// no longer the latest.
    pub fn kick_search(&mut self, text: &str) -> (r: Option<u64>)
        ensures
            final(self).seq == old(self).seq.wrapping_add(1),
            r == (if trimmed(text@).len() == 0 {
                None
            } else {
                Some(final(self).seq)
            }),
    {
        let seq: u64 = self.bump();
        let c = chars_of(text);
        if trim_of(c.as_slice()).len() == 0 {
            None
        } else {
            Some(seq)
        }
    }
}

/// Jobs are numbered one after the other, and every job is awaited until its answer came; the
/// latest one for show is the one to be shown.
pub proof fn law_jobs_are_numbered(w: &mut LibWorker, render: bool, seq: u64, n: u64, f: LibWorker)
    requires
        call_ensures(LibWorker::submit, (w, render), seq),
        call_ensures(LibWorker::new, (), f),
    ensures
        old(w)@.seq < u64::MAX ==> seq == old(w)@.seq + 1,
        final(w)@.seq == seq,
        final(w)@.pending.contains_key(seq),
        final(w)@.pending[seq] == render,
        n != seq ==> (final(w)@.pending.contains_key(n) <==> old(w)@.pending.contains_key(n)),
        n != seq && old(w)@.pending.contains_key(n) ==> final(w)@.pending[n] == old(
            w,
        )@.pending[n],
        render ==> final(w)@.render_seq == seq,
        !render ==> final(w)@.render_seq == old(w)@.render_seq,
        f@.seq == 0 && f@.render_seq == 0,
        !f@.pending.contains_key(n),
{
}

/// An answer is acted on exactly if it is awaited and, if it is for show, nothing later is; it is
/// awaited no longer.
pub proof fn law_answers_are_taken_once(
    w: &mut LibWorker,
    seq: u64,
    act: bool,
    n: u64,
    v: LibWorker,
    b: bool,
)
    requires
        call_ensures(LibWorker::done, (w, seq), act),
        call_ensures(LibWorker::still_pending, (&v, seq), b),
    ensures
        act <==> old(w)@.pending.contains_key(seq) && (old(w)@.pending[seq] ==> old(
            w,
        )@.render_seq == seq),
        !final(w)@.pending.contains_key(seq),
        n != seq ==> (final(w)@.pending.contains_key(n) <==> old(w)@.pending.contains_key(n)),
        n != seq && old(w)@.pending.contains_key(n) ==> final(w)@.pending[n] == old(
            w,
        )@.pending[n],
        final(w)@.seq == old(w)@.seq && final(w)@.render_seq == old(w)@.render_seq,
        b <==> v@.pending.contains_key(seq) && v@.render_seq == seq,
{
}

/// The answer of a job for show is dropped once a later one was sent, and that of the later one
/// is shown.
pub proof fn law_later_job_supersedes(
    a: &mut LibWorker,
    first: u64,
    b: &mut LibWorker,
    second: u64,
    c: &mut LibWorker,
    x: bool,
    d: &mut LibWorker,
    y: bool,
)
    requires
        call_ensures(LibWorker::submit, (a, true), first),
        call_ensures(LibWorker::submit, (b, true), second),
        call_ensures(LibWorker::done, (c, first), x),
        call_ensures(LibWorker::done, (d, second), y),
        *old(b) == *final(a),
        *old(c) == *final(b),
        *old(d) == *final(c),
    ensures
        first != second,
        !x,
        y,
{
    law_latest_render_wins(old(a)@);
}

proof fn lemma_last_query_at(ms: Seq<SearchMsg>, k: int)
    requires
        0 <= k < ms.len(),
        ms[k] is Query,
        forall|i: int| k < i < ms.len() ==> (#[trigger] ms[i]) is Reindex,
    ensures
        last_query(ms) == Some((ms[k]->seq, ms[k]->text, ms[k]->filter)),
    decreases ms.len(),
{
    if k < ms.len() - 1 {
        assert(ms[ms.len() - 1] is Reindex);
        let t = ms.drop_last();
        assert forall|i: int| k < i < t.len() implies (#[trigger] t[i]) is Reindex by {
            assert(t[i] == ms[i]);
        }
        lemma_last_query_at(t, k);
    }
}

proof fn lemma_no_query(ms: Seq<SearchMsg>)
    requires
        forall|i: int| 0 <= i < ms.len() ==> (#[trigger] ms[i]) is Reindex,
    ensures
        last_query(ms) is None,
    decreases ms.len(),
{
    if ms.len() > 0 {
        let t = ms.drop_last();
        assert forall|i: int| 0 <= i < t.len() implies (#[trigger] t[i]) is Reindex by {
            assert(t[i] == ms[i]);
        }
        lemma_no_query(t);
        assert(ms[ms.len() - 1] is Reindex);
    }
}

/// A burst comes down to its last query, and to indexing again if any message asks for that.
pub proof fn law_burst_keeps_the_last_query(msgs: Vec<SearchMsg>, b: Burst, k: int)
    requires
        call_ensures(coalesce, (msgs,), b),
    ensures
        0 <= k < msgs@.len() && msgs@[k] is Query && (forall|i: int|
            k < i < msgs@.len() ==> (#[trigger] msgs@[i]) is Reindex) ==> b.latest == Some(
            (msgs@[k]->seq, msgs@[k]->text, msgs@[k]->filter),
        ),
        (forall|i: int| 0 <= i < msgs@.len() ==> (#[trigger] msgs@[i]) is Reindex)
            ==> b.latest is None,
        b.reindex <==> exists|i: int| 0 <= i < msgs@.len() && (#[trigger] msgs@[i]) is Reindex,
{
    if 0 <= k < msgs@.len() && msgs@[k] is Query && (forall|i: int|
        k < i < msgs@.len() ==> (#[trigger] msgs@[i]) is Reindex) {
        lemma_last_query_at(msgs@, k);
    }
    if forall|i: int| 0 <= i < msgs@.len() ==> (#[trigger] msgs@[i]) is Reindex {
        lemma_no_query(msgs@);
    }
}

/// A later query replaces the one before; a request to index again keeps it.
pub proof fn law_burst_takes_messages(b: &mut Burst, m: SearchMsg, u: (), f: Burst)
    requires
        call_ensures(Burst::take, (b, m), u),
        call_ensures(Burst::new, (), f),
    ensures
        m matches SearchMsg::Query { seq, text, filter } ==> final(b).latest == Some(
            (seq, text, filter),
        ) && final(b).reindex == old(b).reindex,
        m is Reindex ==> final(b).latest == old(b).latest && final(b).reindex,
        f.latest is None && !f.reindex,
{
}

/// Whatever begins later is the latest, and nothing before it is any more; a blank search begins
/// nothing but ends what was under way.
pub proof fn law_only_the_latest_is_current(
    l: &mut Latest,
    seq: u64,
    k: &mut Latest,
    text: &str,
    r: Option<u64>,
    v: Latest,
    n: u64,
    b: bool,
    f: Latest,
)
    requires
        call_ensures(Latest::bump, (l,), seq),
        call_ensures(Latest::kick_search, (k, text), r),
        call_ensures(Latest::is_current, (&v, n), b),
        call_ensures(Latest::new, (), f),
    ensures
        seq != old(l).seq,
        old(l).seq < u64::MAX ==> seq == old(l).seq + 1,
        final(l).seq == seq,
        final(k).seq != old(k).seq,
        old(k).seq < u64::MAX ==> final(k).seq == old(k).seq + 1,
        trimmed(text@).len() == 0 ==> r is None,
        trimmed(text@).len() > 0 ==> r == Some(final(k).seq),
        b <==> v.seq == n,
        f.seq == 0,
{
}

} // verus!
