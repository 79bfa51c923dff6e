use vstd::prelude::*;
use crate::downloader::{batch_ids, ids_distinct, DownloadMessage, DownloadProgress, DownloadQueueElement};

verus! {

/// Where a worker stands with its current item.
#[derive(Debug, Clone, Copy)]
pub enum Phase {
    /// Between items: the next one may be taken from the queue.
    Idle,
    /// The body of the current item is being written.
    Streaming,
    /// The current item waits for its conversion.
    Converting,
    /// The current item waits for its file times to be set.
    Stamping,
    /// The queue was found empty; the worker has stopped.
    Finished,
}

/// What the worker does after a stage of the current item.
#[derive(Debug)]
pub enum Step {
    /// Send this event; the item is over.
    Report(DownloadMessage),
    /// Convert the temporary file into the final one.
    Transcode,
    /// Set the access and modification times of the final file.
    Stamp,
}

/// One event of a worker's log, with the item it concerns.
pub enum LogEntry {
    Started(u32),
    Progress(u32),
    Completed(u32),
    Failed(u32),
    Finished,
}

/// How many times `e` occurs in `log`.
pub open spec fn count_entries(log: Seq<LogEntry>, e: LogEntry) -> nat
    decreases log.len(),
{
    if log.len() == 0 {
        0
    } else {
        count_entries(log.drop_last(), e) + if log.last() == e {
            1nat
        } else {
            0nat
        }
    }
}

pub open spec fn start_count(log: Seq<LogEntry>, id: u32) -> nat {
    count_entries(log, LogEntry::Started(id))
}

pub open spec fn completed_count(log: Seq<LogEntry>, id: u32) -> nat {
    count_entries(log, LogEntry::Completed(id))
}

/// The terminal events (Completed or Failed) of item `id` in `log`.
pub open spec fn terminal_count(log: Seq<LogEntry>, id: u32) -> nat {
    count_entries(log, LogEntry::Completed(id)) + count_entries(log, LogEntry::Failed(id))
}

pub open spec fn is_terminal(e: LogEntry) -> bool {
    e is Completed || e is Failed
}

/// The terminal events of `log`, whatever their item.
pub open spec fn terminal_total(log: Seq<LogEntry>) -> nat
    decreases log.len(),
{
    if log.len() == 0 {
        0
    } else {
        terminal_total(log.drop_last()) + if is_terminal(log.last()) {
            1nat
        } else {
            0nat
        }
    }
}

proof fn lemma_terminal_total_concat(a: Seq<LogEntry>, b: Seq<LogEntry>)
    ensures
        terminal_total(a + b) == terminal_total(a) + terminal_total(b),
    decreases b.len(),
{
    if b.len() > 0 {
        lemma_terminal_total_concat(a, b.drop_last());
        assert((a + b).drop_last() =~= a + b.drop_last());
        assert((a + b).last() == b.last());
    } else {
        assert(a + b =~= a);
    }
}

pub open spec fn finished_count(log: Seq<LogEntry>) -> nat {
    count_entries(log, LogEntry::Finished)
}

proof fn lemma_count_push(log: Seq<LogEntry>, e: LogEntry)
    ensures
        forall|x: LogEntry| #[trigger]
            count_entries(log.push(e), x) == count_entries(log, x) + if e == x {
                1nat
            } else {
                0nat
            },
{
    assert(log.push(e).drop_last() =~= log);
}

/// Item `id` has a Started event before a Completed one in `log`.
pub open spec fn started_before_completed(log: Seq<LogEntry>, id: u32) -> bool {
    exists|i: int, j: int|
        0 <= i < j < log.len() && #[trigger] log[i] == LogEntry::Started(id) && #[trigger] log[j]
            == LogEntry::Completed(id)
}

/// Item `id` has a Started event in `log`.
pub open spec fn has_started(log: Seq<LogEntry>, id: u32) -> bool {
    exists|i: int| 0 <= i < log.len() && #[trigger] log[i] == LogEntry::Started(id)
}

proof fn lemma_push_keeps_order(log: Seq<LogEntry>, e: LogEntry)
    ensures
        forall|x: u32| #[trigger]
            started_before_completed(log, x) ==> started_before_completed(log.push(e), x),
        forall|x: u32| #[trigger] has_started(log, x) ==> has_started(log.push(e), x),
{
    let n = log.push(e);
    assert forall|x: u32| #[trigger] started_before_completed(log, x) implies started_before_completed(
        n,
        x,
    ) by {
        let (i, j) = choose|i: int, j: int|
            0 <= i < j < log.len() && #[trigger] log[i] == LogEntry::Started(x) && #[trigger] log[j]
                == LogEntry::Completed(x);
        assert(n[i] == log[i] && n[j] == log[j]);
    }
    assert forall|x: u32| #[trigger] has_started(log, x) implies has_started(n, x) by {
        let i = choose|i: int| 0 <= i < log.len() && #[trigger] log[i] == LogEntry::Started(x);
        assert(n[i] == log[i]);
    }
}

/// The text of the event for a failed conversion.
pub open spec fn transcode_failure_text() -> Seq<char> {
    seq![
        'F', 'a', 'i', 'l', 'e', 'd', ' ', 't', 'o', ' ', 'T', 'r', 'a', 'n', 's', 'c', 'o', 'd', 'e',
    ]
}

/// Whether the chunk with 0-based index `index` is followed by an
/// Incremental event, when one is sent every `every` chunks.
pub open spec fn reports_chunk(index: nat, every: nat) -> bool {
    every > 0 && index % every == 0
}

/// The decisions of one worker of the pool. The worker takes items from the
/// shared queue one at a time and runs each through request, streaming,
/// optional conversion and time stamping; the methods below say, after each
/// of these stages, which event to send and what comes next. The ghost log
/// holds every event that the worker has sent, tagged with its item.
pub struct Worker {
    pub phase: Phase,
    /// The identity of the current item.
    pub id: u32,
    pub total_size: u64,
    pub completed: u64,
    /// The chunks of the current item received so far.
    pub chunks: u64,
    /// An Incremental event follows every chunk whose index is a multiple of
    /// this; 0 sends none.
    pub progress_every: u64,
    pub log: Ghost<Seq<LogEntry>>,
    /// The items that have come to a terminal event.
    pub handled: Ghost<Set<u32>>,
}

impl Worker {
    pub open spec fn in_item(&self) -> bool {
        self.phase is Streaming || self.phase is Converting || self.phase is Stamping
    }

    pub open spec fn is_current(&self, x: u32) -> bool {
        self.in_item() && x == self.id
    }

    pub open spec fn wf(&self) -> bool {
        let log = self.log@;
        &&& finished_count(log) == if self.phase is Finished {
            1nat
        } else {
            0nat
        }
        &&& self.in_item() ==> !self.handled@.contains(self.id)
        &&& self.handled@.finite()
        &&& terminal_total(log) == self.handled@.len()
        &&& self.in_item() ==> start_count(log, self.id) == 1 && terminal_count(log, self.id) == 0
        &&& self.in_item() ==> has_started(log, self.id)
        &&& forall|x: u32| #[trigger]
            self.handled@.contains(x) ==> terminal_count(log, x) == 1 && start_count(log, x) <= 1
                && (completed_count(log, x) >= 1 ==> start_count(log, x) == 1
                && started_before_completed(log, x))
        &&& forall|x: u32|
            !#[trigger] self.handled@.contains(x) && !self.is_current(x) ==> terminal_count(log, x)
                == 0 && start_count(log, x) == 0
    }

    /// The progress of the current item.
    pub open spec fn progress(&self) -> DownloadProgress {
        DownloadProgress { id: self.id, total_size: self.total_size, completed: self.completed }
    }

    /// A worker that has not yet taken an item.
    pub fn new(progress_every: u64) -> (w: Worker)
        ensures
            w.wf(),
            w.phase is Idle,
            w.progress_every == progress_every,
            w.log@ == Seq::<LogEntry>::empty(),
            w.handled@ == Set::<u32>::empty(),
    {
        Worker {
            phase: Phase::Idle,
            id: 0,
            total_size: 0,
            completed: 0,
            chunks: 0,
            progress_every,
            log: Ghost(Seq::empty()),
            handled: Ghost(Set::empty()),
        }
    }

    /// The request for item `id` failed, by a transport error or a status
    /// that is not success: the item ends with a Failed event that carries
    /// the reason.
    pub fn request_failed(&mut self, id: u32, reason: String) -> (m: DownloadMessage)
        requires
            old(self).wf(),
            old(self).phase is Idle,
            !old(self).handled@.contains(id),
        ensures
            final(self).wf(),
            final(self).phase is Idle,
            m == DownloadMessage::Failed(reason),
            final(self).log@ == old(self).log@.push(LogEntry::Failed(id)),
            final(self).handled@ == old(self).handled@.insert(id),
            final(self).progress_every == old(self).progress_every,
    {
        self.append(LogEntry::Failed(id));
        self.handled = Ghost(self.handled@.insert(id));
        DownloadMessage::Failed(reason)
    }

    /// The response for item `id` arrived, with the declared length if there
    /// was one: the body is streamed next, and a Started event goes out.
    pub fn start(&mut self, id: u32, content_length: Option<u64>) -> (m: DownloadMessage)
        requires
            old(self).wf(),
            old(self).phase is Idle,
            !old(self).handled@.contains(id),
        ensures
            final(self).wf(),
            final(self).phase is Streaming,
            final(self).id == id,
            final(self).total_size == match content_length {
                Some(n) => n,
                None => 0,
            },
            final(self).completed == 0,
            final(self).chunks == 0,
            m == DownloadMessage::Started(final(self).progress()),
            final(self).log@ == old(self).log@.push(LogEntry::Started(id)),
            final(self).handled@ == old(self).handled@,
            final(self).progress_every == old(self).progress_every,
    {
        let total_size = match content_length {
            Some(n) => n,
            None => 0,
        };
        self.append(LogEntry::Started(id));
        self.phase = Phase::Streaming;
        self.id = id;
        self.total_size = total_size;
        self.completed = 0;
        self.chunks = 0;
        DownloadMessage::Started(DownloadProgress::new(id, total_size, 0))
    }

    /// A chunk of `bytes` bytes was written; an Incremental event follows
    /// every `progress_every`-th chunk, counting from the first.
    pub fn chunk(&mut self, bytes: u64) -> (m: Option<DownloadMessage>)
        requires
            old(self).wf(),
            old(self).phase is Streaming,
            old(self).completed + bytes <= u64::MAX,
            old(self).chunks < u64::MAX,
        ensures
            final(self).wf(),
            final(self).phase is Streaming,
            final(self).id == old(self).id,
            final(self).total_size == old(self).total_size,
            final(self).completed == old(self).completed + bytes,
            final(self).chunks == old(self).chunks + 1,
            final(self).progress_every == old(self).progress_every,
            final(self).handled@ == old(self).handled@,
            reports_chunk(old(self).chunks as nat, old(self).progress_every as nat) ==> m
                == Some(DownloadMessage::Incremental(final(self).progress())) && final(self).log@
                == old(self).log@.push(LogEntry::Progress(old(self).id)),
            !reports_chunk(old(self).chunks as nat, old(self).progress_every as nat) ==> m is None
                && final(self).log@ == old(self).log@,
    {
        let report = self.progress_every > 0 && self.chunks % self.progress_every == 0;
        self.completed = self.completed + bytes;
        self.chunks = self.chunks + 1;
        if report {
            self.append(LogEntry::Progress(self.id));
            Some(DownloadMessage::Incremental(DownloadProgress::new(self.id, self.total_size, self.completed)))
        } else {
            None
        }
    }

    /// The body has ended, or writing it failed with `write_error`. A write
    /// error ends the item with a Failed event; otherwise a file that is not
    /// in the native format goes to conversion, and a native one to time
    /// stamping.
    pub fn end_stream(&mut self, write_error: Option<String>, native: bool) -> (s: Step)
        requires
            old(self).wf(),
            old(self).phase is Streaming,
        ensures
            final(self).wf(),
            final(self).id == old(self).id,
            final(self).total_size == old(self).total_size,
            final(self).completed == old(self).completed,
            final(self).progress_every == old(self).progress_every,
            match write_error {
                Some(e) => {
                    &&& s == Step::Report(DownloadMessage::Failed(e))
                    &&& final(self).phase is Idle
                    &&& final(self).log@ == old(self).log@.push(LogEntry::Failed(old(self).id))
                    &&& final(self).handled@ == old(self).handled@.insert(old(self).id)
                },
                None => {
                    &&& final(self).log@ == old(self).log@
                    &&& final(self).handled@ == old(self).handled@
                    &&& native ==> s is Stamp && final(self).phase is Stamping
                    &&& !native ==> s is Transcode && final(self).phase is Converting
                },
            },
    {
        match write_error {
            Some(e) => {
                self.append(LogEntry::Failed(self.id));
                self.close_item();
                Step::Report(DownloadMessage::Failed(e))
            },
            None => {
                if native {
                    self.phase = Phase::Stamping;
                    Step::Stamp
                } else {
                    self.phase = Phase::Converting;
                    Step::Transcode
                }
            },
        }
    }

    /// The conversion ran; `success` says whether it produced the final
    /// file. A failure ends the item with a Failed event; a success goes on
    /// to time stamping.
    pub fn end_transcode(&mut self, success: bool) -> (s: Step)
        requires
            old(self).wf(),
            old(self).phase is Converting,
        ensures
            final(self).wf(),
            final(self).id == old(self).id,
            final(self).total_size == old(self).total_size,
            final(self).completed == old(self).completed,
            final(self).progress_every == old(self).progress_every,
            success ==> s is Stamp && final(self).phase is Stamping && final(self).log@ == old(self).log@ && final(self).handled@ == old(self).handled@,
            !success ==> (s matches Step::Report(DownloadMessage::Failed(t))
                && t@ == transcode_failure_text()) && final(self).phase is Idle
                && final(self).log@ == old(self).log@.push(LogEntry::Failed(old(self).id))
                && final(self).handled@ == old(self).handled@.insert(old(self).id),
    {
        if success {
            self.phase = Phase::Stamping;
            Step::Stamp
        } else {
            self.append(LogEntry::Failed(self.id));
            self.close_item();
            let t = "Failed to Transcode".to_owned();
            proof {
                reveal_strlit("Failed to Transcode");
                assert(t@ =~= transcode_failure_text());
            }
            Step::Report(DownloadMessage::Failed(t))
        }
    }

    /// Setting the file times ended, with `error` if it failed: the item
    /// ends with Completed, carrying its final byte counts, or with Failed.
    pub fn end_stamp(&mut self, error: Option<String>) -> (m: DownloadMessage)
        requires
            old(self).wf(),
            old(self).phase is Stamping,
        ensures
            final(self).wf(),
            final(self).phase is Idle,
            final(self).progress_every == old(self).progress_every,
            final(self).handled@ == old(self).handled@.insert(old(self).id),
            match error {
                Some(e) => m == DownloadMessage::Failed(e) && final(self).log@ == old(self).log@.push(LogEntry::Failed(old(self).id)),
                None => m == DownloadMessage::Completed(old(self).progress()) && final(self).log@ == old(self).log@.push(LogEntry::Completed(old(self).id)),
            },
    {
        match error {
            Some(e) => {
                self.append(LogEntry::Failed(self.id));
                self.close_item();
                DownloadMessage::Failed(e)
            },
            None => {
                let ghost before = self.log@;
                self.append(LogEntry::Completed(self.id));
                proof {
                    let i = choose|i: int|
                        0 <= i < before.len() && #[trigger] before[i] == LogEntry::Started(self.id);
                    assert(self.log@[i] == before[i]);
                    assert(self.log@[before.len() as int] == LogEntry::Completed(self.id));
                    assert(started_before_completed(self.log@, self.id));
                }
                let m = DownloadMessage::Completed(
                    DownloadProgress::new(self.id, self.total_size, self.completed),
                );
                self.close_item();
                m
            },
        }
    }

    /// The queue was found empty: the worker stops and says so, once.
    pub fn queue_empty(&mut self) -> (m: DownloadMessage)
        requires
            old(self).wf(),
            old(self).phase is Idle,
        ensures
            final(self).wf(),
            final(self).phase is Finished,
            m is ThreadTerminated,
            final(self).log@ == old(self).log@.push(LogEntry::Finished),
            final(self).handled@ == old(self).handled@,
    {
        self.append(LogEntry::Finished);
        self.phase = Phase::Finished;
        DownloadMessage::ThreadTerminated
    }

    /// Appends `e` to the log.
    fn append(&mut self, e: LogEntry)
        ensures
            final(self).log@ == old(self).log@.push(e),
            forall|x: LogEntry| #[trigger]
                count_entries(final(self).log@, x) == count_entries(old(self).log@, x) + if e == x {
                    1nat
                } else {
                    0nat
                },
            final(self).phase == old(self).phase,
            final(self).id == old(self).id,
            final(self).total_size == old(self).total_size,
            final(self).completed == old(self).completed,
            final(self).chunks == old(self).chunks,
            final(self).progress_every == old(self).progress_every,
            final(self).handled == old(self).handled,
            forall|x: u32| #[trigger]
                started_before_completed(old(self).log@, x) ==> started_before_completed(
                    final(self).log@,
                    x,
                ),
            forall|x: u32| #[trigger]
                has_started(old(self).log@, x) ==> has_started(final(self).log@, x),
            e == LogEntry::Started(old(self).id) ==> has_started(final(self).log@, old(self).id),
            terminal_total(final(self).log@) == terminal_total(old(self).log@) + if is_terminal(e) {
                1nat
            } else {
                0nat
            },
    {
        proof {
            lemma_count_push(self.log@, e);
            lemma_push_keeps_order(self.log@, e);
            let n = self.log@.push(e);
            assert(n[n.len() - 1] == e);
            assert(n.drop_last() =~= self.log@);
        }
        self.log = Ghost(self.log@.push(e));
    }

    /// Marks the current item as handled and returns to Idle.
    fn close_item(&mut self)
        requires
            old(self).in_item(),
        ensures
            final(self).phase is Idle,
            final(self).handled@ == old(self).handled@.insert(old(self).id),
            final(self).log == old(self).log,
            final(self).id == old(self).id,
            final(self).total_size == old(self).total_size,
            final(self).completed == old(self).completed,
            final(self).progress_every == old(self).progress_every,
    {
        self.handled = Ghost(self.handled@.insert(self.id));
        self.phase = Phase::Idle;
    }
}

/// The logs of the workers of a pool, one after another.
pub open spec fn pool_log(ws: Seq<Worker>) -> Seq<LogEntry>
    decreases ws.len(),
{
    if ws.len() == 0 {
        Seq::empty()
    } else {
        pool_log(ws.drop_last()) + ws.last().log@
    }
}

/// Every worker of the pool has found the queue empty and stopped.
pub open spec fn drained(ws: Seq<Worker>) -> bool {
    forall|i: int| 0 <= i < ws.len() ==> (#[trigger] ws[i]).wf() && ws[i].phase is Finished
}

/// No item went to two workers, as the shared queue hands each item out once.
pub open spec fn items_disjoint(ws: Seq<Worker>) -> bool {
    forall|i: int, j: int, x: u32|
        0 <= i < ws.len() && 0 <= j < ws.len() && i != j && #[trigger] ws[i].handled@.contains(x)
            ==> !#[trigger] ws[j].handled@.contains(x)
}

/// Some worker of the pool has taken item `id`.
pub open spec fn handled_by_pool(ws: Seq<Worker>, id: u32) -> bool {
    exists|i: int| 0 <= i < ws.len() && #[trigger] ws[i].handled@.contains(id)
}

proof fn lemma_count_concat(a: Seq<LogEntry>, b: Seq<LogEntry>)
    ensures
        forall|x: LogEntry| #[trigger]
            count_entries(a + b, x) == count_entries(a, x) + count_entries(b, x),
    decreases b.len(),
{
    if b.len() > 0 {
        lemma_count_concat(a, b.drop_last());
        assert((a + b).drop_last() =~= a + b.drop_last());
        assert((a + b).last() == b.last());
        assert forall|x: LogEntry| #[trigger]
            count_entries(a + b, x) == count_entries(a, x) + count_entries(b, x) by {
            assert(count_entries(a + b, x) == count_entries(a + b.drop_last(), x) + if b.last()
                == x {
                1nat
            } else {
                0nat
            });
        }
    } else {
        assert(a + b =~= a);
    }
}

proof fn lemma_drained_prefix(ws: Seq<Worker>)
    requires
        drained(ws),
        ws.len() > 0,
    ensures
        drained(ws.drop_last()),
        ws.last().wf(),
        ws.last().phase is Finished,
{
    let p = ws.drop_last();
    assert forall|i: int| 0 <= i < p.len() implies (#[trigger] p[i]).wf() && p[i].phase is Finished by {
        assert(p[i] == ws[i]);
    }
    assert(drained(p));
    assert(ws[ws.len() - 1].wf());
}

/// A drained pool has sent exactly one WorkerFinished event per worker.
pub proof fn lemma_pool_finished(ws: Seq<Worker>)
    requires
        drained(ws),
    ensures
        finished_count(pool_log(ws)) == ws.len(),
    decreases ws.len(),
{
    if ws.len() > 0 {
        let p = ws.drop_last();
        lemma_drained_prefix(ws);
        lemma_pool_finished(p);
        lemma_count_concat(pool_log(p), ws.last().log@);
        assert(ws.last().wf() && ws.last().phase is Finished) by {
            assert(ws[ws.len() - 1].wf());
        }
    }
}

/// Once a pool with a queue that hands each item to one worker is drained,
/// each item that a worker took has exactly one terminal event (Completed or
/// Failed) and any other none; an item that completed was started exactly
/// once, before it completed; and no item was started twice.
pub proof fn lemma_pool_terminal_events(ws: Seq<Worker>, id: u32)
    requires
        drained(ws),
        items_disjoint(ws),
    ensures
        terminal_count(pool_log(ws), id) == if handled_by_pool(ws, id) {
            1nat
        } else {
            0nat
        },
        completed_count(pool_log(ws), id) >= 1 ==> start_count(pool_log(ws), id) == 1
            && started_before_completed(pool_log(ws), id),
        start_count(pool_log(ws), id) <= 1,
        !handled_by_pool(ws, id) ==> start_count(pool_log(ws), id) == 0,
    decreases ws.len(),
{
    if ws.len() > 0 {
        let p = ws.drop_last();
        let w = ws.last();
        assert(w == ws[ws.len() - 1]);
        assert(w.wf());
        lemma_drained_prefix(ws);
        assert(items_disjoint(p)) by {
            assert forall|i: int, j: int, x: u32|
                0 <= i < p.len() && 0 <= j < p.len() && i != j && #[trigger] p[i].handled@.contains(
                    x,
                ) implies !#[trigger] p[j].handled@.contains(x) by {
                assert(p[i] == ws[i] && p[j] == ws[j]);
            }
        }
        lemma_pool_terminal_events(p, id);
        lemma_count_concat(pool_log(p), w.log@);
        if w.handled@.contains(id) {
            assert(!handled_by_pool(p, id)) by {
                if handled_by_pool(p, id) {
                    let i = choose|i: int| 0 <= i < p.len() && #[trigger] p[i].handled@.contains(id);
                    assert(p[i] == ws[i]);
                    assert(ws[i].handled@.contains(id));
                    assert(ws[ws.len() - 1].handled@.contains(id));
                }
            }
            assert(handled_by_pool(ws, id)) by {
                assert(ws[ws.len() - 1].handled@.contains(id));
            }
            let a = pool_log(p);
            let b = w.log@;
            assert(pool_log(ws) == a + b);
            if completed_count(a + b, id) >= 1 {
                assert(started_before_completed(b, id));
                let (i, j) = choose|i: int, j: int|
                    0 <= i < j < b.len() && #[trigger] b[i] == LogEntry::Started(id) && #[trigger] b[j]
                        == LogEntry::Completed(id);
                assert((a + b)[a.len() + i] == b[i]);
                assert((a + b)[a.len() + j] == b[j]);
            }
        } else {
            assert(handled_by_pool(ws, id) == handled_by_pool(p, id)) by {
                if handled_by_pool(ws, id) {
                    let i = choose|i: int| 0 <= i < ws.len() && #[trigger] ws[i].handled@.contains(id);
                    assert(i < ws.len() - 1);
                    assert(p[i] == ws[i]);
                }
                if handled_by_pool(p, id) {
                    let i = choose|i: int| 0 <= i < p.len() && #[trigger] p[i].handled@.contains(id);
                    assert(p[i] == ws[i]);
                }
            }
            let a = pool_log(p);
            let b = w.log@;
            assert(pool_log(ws) == a + b);
            if completed_count(a + b, id) >= 1 {
                assert(started_before_completed(a, id));
                let (i, j) = choose|i: int, j: int|
                    0 <= i < j < a.len() && #[trigger] a[i] == LogEntry::Started(id) && #[trigger] a[j]
                        == LogEntry::Completed(id);
                assert((a + b)[i] == a[i]);
                assert((a + b)[j] == a[j]);
            }
        }
    }
}

/// The items that the workers of a pool have taken.
pub open spec fn pool_handled(ws: Seq<Worker>) -> Set<u32>
    decreases ws.len(),
{
    if ws.len() == 0 {
        Set::empty()
    } else {
        pool_handled(ws.drop_last()).union(ws.last().handled@)
    }
}

proof fn lemma_items_disjoint_prefix(ws: Seq<Worker>)
    requires
        items_disjoint(ws),
        ws.len() > 0,
    ensures
        items_disjoint(ws.drop_last()),
{
    let p = ws.drop_last();
    assert forall|i: int, j: int, x: u32|
        0 <= i < p.len() && 0 <= j < p.len() && i != j && #[trigger] p[i].handled@.contains(x)
            implies !#[trigger] p[j].handled@.contains(x) by {
        assert(p[i] == ws[i] && p[j] == ws[j]);
    }
}

/// A drained pool has sent one terminal event per item that its workers took.
pub proof fn lemma_pool_terminal_total(ws: Seq<Worker>)
    requires
        drained(ws),
        items_disjoint(ws),
    ensures
        pool_handled(ws).finite(),
        terminal_total(pool_log(ws)) == pool_handled(ws).len(),
        forall|x: u32| #[trigger] pool_handled(ws).contains(x) <==> handled_by_pool(ws, x),
    decreases ws.len(),
{
    if ws.len() > 0 {
        let p = ws.drop_last();
        let w = ws.last();
        lemma_drained_prefix(ws);
        lemma_items_disjoint_prefix(ws);
        lemma_pool_terminal_total(p);
        lemma_terminal_total_concat(pool_log(p), w.log@);
        assert(pool_handled(p).disjoint(w.handled@)) by {
            assert forall|x: u32| pool_handled(p).contains(x) implies !w.handled@.contains(x) by {
                let i = choose|i: int| 0 <= i < p.len() && #[trigger] p[i].handled@.contains(x);
                assert(p[i] == ws[i]);
                assert(ws[i].handled@.contains(x));
                assert(w == ws[ws.len() - 1]);
            }
        }
        vstd::set_lib::lemma_set_disjoint_lens(pool_handled(p), w.handled@);
        assert forall|x: u32| #[trigger] pool_handled(ws).contains(x) <==> handled_by_pool(ws, x) by {
            if handled_by_pool(ws, x) {
                let i = choose|i: int| 0 <= i < ws.len() && #[trigger] ws[i].handled@.contains(x);
                if i < ws.len() - 1 {
                    assert(p[i] == ws[i]);
                    assert(handled_by_pool(p, x));
                }
            }
            if pool_handled(ws).contains(x) && !w.handled@.contains(x) {
                assert(handled_by_pool(p, x));
                let i = choose|i: int| 0 <= i < p.len() && #[trigger] p[i].handled@.contains(x);
                assert(p[i] == ws[i]);
            }
            if w.handled@.contains(x) {
                assert(ws[ws.len() - 1].handled@.contains(x));
            }
        }
    }
}

/// When the drained workers of a pool have taken between them exactly the
/// items of a batch whose identities are distinct, as the shared queue hands
/// out each item once, every item of the batch has exactly one terminal event,
/// the pool sent as many terminal events as the batch has items, and one
/// WorkerFinished event per worker.
pub proof fn lemma_batch_all_ended(ws: Seq<Worker>, list: Seq<DownloadQueueElement>)
    requires
        drained(ws),
        items_disjoint(ws),
        ids_distinct(list),
        pool_handled(ws) == batch_ids(list).to_set(),
    ensures
        terminal_total(pool_log(ws)) == list.len(),
        forall|k: int| 0 <= k < list.len() ==> terminal_count(pool_log(ws), #[trigger] list[k].id) == 1,
        finished_count(pool_log(ws)) == ws.len(),
{
    lemma_pool_terminal_total(ws);
    lemma_pool_finished(ws);
    let ids = batch_ids(list);
    assert(ids.no_duplicates()) by {
        assert forall|i: int, j: int| 0 <= i < ids.len() && 0 <= j < ids.len() && i != j implies ids[i]
            != ids[j] by {
            if i < j {
                assert(list[i].id != list[j].id);
            } else {
                assert(list[j].id != list[i].id);
            }
        }
    }
    ids.unique_seq_to_set();
    assert forall|k: int| 0 <= k < list.len() implies terminal_count(pool_log(ws), #[trigger] list[k].id)
        == 1 by {
        assert(ids[k] == list[k].id);
        assert(ids.to_set().contains(ids[k]));
        assert(handled_by_pool(ws, list[k].id));
        lemma_pool_terminal_events(ws, list[k].id);
    }
}

} // verus!
