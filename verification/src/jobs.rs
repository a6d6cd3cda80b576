//! A conversion job's life: queued, running, then done, failed or
//! cancelled, and never anything else once finished.
use vstd::prelude::*;
use crate::order::lex_lt;
use crate::grid::views;
use crate::text::{chars_of, concat3, str_eq};

verus! {

/// Where a job stands.
#[derive(Debug, Clone, Copy, PartialEq, Eq, Structural)]
pub enum Status {
    /// Waiting for a free conversion slot.
    Queued,
    Running,
    Done,
    Error,
    Cancelled,
}

pub open spec fn finished(s: Status) -> bool {
    s == Status::Done || s == Status::Error || s == Status::Cancelled
}

impl Status {
    /// Done, failed or cancelled: nothing more will happen to the job.
    pub fn is_finished(self) -> (res: bool)
        ensures
            res == finished(self),
    {
        match self {
            Status::Done | Status::Error | Status::Cancelled => true,
            _ => false,
        }
    }
}

/// Where a job's files and events are served.
pub struct Links {
    pub download: String,
    pub thumbnail: String,
    pub events: String,
}

/// The links of job `id`.
pub fn links(id: &str) -> (res: Links)
    ensures
        res.download@ == "/api/jobs/"@ + id@ + "/download"@,
        res.thumbnail@ == "/api/jobs/"@ + id@ + "/thumbnail.png"@,
        res.events@ == "/api/jobs/"@ + id@ + "/events"@,
{
    Links {
        download: concat3("/api/jobs/", id, "/download"),
        thumbnail: concat3("/api/jobs/", id, "/thumbnail.png"),
        events: concat3("/api/jobs/", id, "/events"),
    }
}

/// The part of a job's state its life decides: status, stage label, the
/// message shown with it, the error of a failed job and when it finished.
pub struct Lifecycle {
    pub status: Status,
    pub stage: &'static str,
    pub message: String,
    pub error: Option<String>,
    pub finished_ms: Option<i64>,
}

/// A `Lifecycle` as values.
pub struct LifecycleView {
    pub status: Status,
    pub stage: Seq<char>,
    pub message: Seq<char>,
    pub error: Option<Seq<char>>,
    pub finished_ms: Option<i64>,
}

pub open spec fn opt_view(o: Option<String>) -> Option<Seq<char>> {
    match o {
        Some(s) => Some(s@),
        None => None,
    }
}

impl View for Lifecycle {
    type V = LifecycleView;

    open spec fn view(&self) -> LifecycleView {
        LifecycleView {
            status: self.status,
            stage: self.stage@,
            message: self.message@,
            error: opt_view(self.error),
            finished_ms: self.finished_ms,
        }
    }
}

/// A new job: queued.
pub open spec fn queued_state() -> LifecycleView {
    LifecycleView {
        status: Status::Queued,
        stage: "queued"@,
        message: "Queued…"@,
        error: None,
        finished_ms: None,
    }
}

/// What a start attempt makes of `v`: running, where it was queued and no
/// cancel was asked for; unchanged otherwise.
pub open spec fn start_step(v: LifecycleView, cancel_requested: bool) -> LifecycleView {
    if v.status == Status::Queued && !cancel_requested {
        LifecycleView { status: Status::Running, stage: "start"@, message: "Starting…"@, ..v }
    } else {
        v
    }
}

/// What a cancel request at `now` makes of `v`: cancelled, where it was
/// queued; unchanged otherwise (a running job stops at its next checkpoint).
pub open spec fn cancel_step(v: LifecycleView, now: i64) -> LifecycleView {
    if v.status == Status::Queued {
        LifecycleView {
            status: Status::Cancelled,
            stage: "cancelled"@,
            message: "Cancelled"@,
            finished_ms: Some(now),
            ..v
        }
    } else {
        v
    }
}

/// What a progress report makes of `v`: taken only while running.
pub open spec fn report_step(v: LifecycleView, stage: Seq<char>, message: Seq<char>) -> LifecycleView {
    if v.status == Status::Running {
        LifecycleView { stage: stage, message: message, ..v }
    } else {
        v
    }
}

/// The end of a conversion that produced its schematic.
pub open spec fn success_step(v: LifecycleView, message: Seq<char>, now: i64) -> LifecycleView {
    LifecycleView {
        status: Status::Done,
        stage: "done"@,
        message: message,
        finished_ms: Some(now),
        ..v
    }
}

/// The end of a conversion that was cancelled while it ran; a time
/// already recorded stays.
pub open spec fn stop_step(v: LifecycleView, now: i64) -> LifecycleView {
    LifecycleView {
        status: Status::Cancelled,
        stage: "cancelled"@,
        message: "Cancelled"@,
        finished_ms: match v.finished_ms {
            Some(t) => Some(t),
            None => Some(now),
        },
        ..v
    }
}

/// The end of a conversion that failed with `text`.
pub open spec fn failure_step(v: LifecycleView, text: Seq<char>, now: i64) -> LifecycleView {
    LifecycleView {
        status: Status::Error,
        stage: "error"@,
        message: text,
        error: Some(text),
        finished_ms: Some(now),
    }
}

impl Lifecycle {
    /// A job that has not started.
    pub fn queued() -> (res: Lifecycle)
        ensures
            res@ == queued_state(),
    {
        Lifecycle {
            status: Status::Queued,
            stage: "queued",
            message: "Queued…".to_owned(),
            error: None,
            finished_ms: None,
        }
    }

    /// Start the job if it is still queued and nobody asked to cancel it.
    /// Whether it started.
    pub fn try_start(&mut self, cancel_requested: bool) -> (started: bool)
        ensures
            started == (old(self).status == Status::Queued && !cancel_requested),
            final(self)@ == start_step(old(self)@, cancel_requested),
    {
        if self.status == Status::Queued && !cancel_requested {
            self.status = Status::Running;
            self.stage = "start";
            self.message = "Starting…".to_owned();
            true
        } else {
            false
        }
    }

    /// A cancel request at `now`. Whether the job was still queued, and so
    /// is cancelled already.
    pub fn cancel_if_queued(&mut self, now: i64) -> (was_queued: bool)
        ensures
            was_queued == (old(self).status == Status::Queued),
            final(self)@ == cancel_step(old(self)@, now),
    {
        if self.status == Status::Queued {
            self.status = Status::Cancelled;
            self.stage = "cancelled";
            self.message = "Cancelled".to_owned();
            self.finished_ms = Some(now);
            true
        } else {
            false
        }
    }

    /// A progress report from the running pipeline. Whether it was taken.
    pub fn report(&mut self, stage: &'static str, message: String) -> (taken: bool)
        ensures
            taken == (old(self).status == Status::Running),
            final(self)@ == report_step(old(self)@, stage@, message@),
    {
        if self.status == Status::Running {
            self.stage = stage;
            self.message = message;
            true
        } else {
            false
        }
    }

    /// The conversion produced its schematic, reported with `message`.
    pub fn succeed(&mut self, message: String, now: i64)
        ensures
            final(self)@ == success_step(old(self)@, message@, now),
    {
        self.status = Status::Done;
        self.stage = "done";
        self.message = message;
        self.finished_ms = Some(now);
    }

    /// The conversion stopped because it was cancelled.
    pub fn stopped(&mut self, now: i64)
        ensures
            final(self)@ == stop_step(old(self)@, now),
    {
        self.status = Status::Cancelled;
        self.stage = "cancelled";
        self.message = "Cancelled".to_owned();
        if self.finished_ms.is_none() {
            self.finished_ms = Some(now);
        }
    }

    /// The conversion failed with `text`.
    pub fn fail(&mut self, text: String, now: i64)
        ensures
            final(self)@ == failure_step(old(self)@, text@, now),
    {
        self.status = Status::Error;
        self.stage = "error";
        self.error = Some(text.clone());
        self.message = text;
        self.finished_ms = Some(now);
    }
}

/// A finished job stays as it is: a start attempt, a cancel request and a
/// progress report all leave it unchanged.
pub proof fn lemma_finished_is_final(
    v: LifecycleView,
    cancel_requested: bool,
    now: i64,
    stage: Seq<char>,
    message: Seq<char>,
)
    requires
        finished(v.status),
    ensures
        start_step(v, cancel_requested) == v,
        cancel_step(v, now) == v,
        report_step(v, stage, message) == v,
{
}

/// Each way a run ends finishes the job.
pub proof fn lemma_outcomes_finish(v: LifecycleView, message: Seq<char>, now: i64)
    ensures
        finished(success_step(v, message, now).status),
        finished(stop_step(v, now).status),
        finished(failure_step(v, message, now).status),
        success_step(v, message, now).finished_ms is Some,
        stop_step(v, now).finished_ms is Some,
        failure_step(v, message, now).finished_ms is Some,
{
}

/// A job cancelled while queued never runs: it is cancelled at once, and
/// no later start attempt starts it.
pub proof fn lemma_cancelled_in_queue_never_runs(v: LifecycleView, now: i64, cancel_requested: bool)
    requires
        v.status == Status::Queued,
    ensures
        cancel_step(v, now).status == Status::Cancelled,
        start_step(cancel_step(v, now), cancel_requested) == cancel_step(v, now),
{
}

/// Only a queued job starts, and only when no cancel was asked for.
pub proof fn lemma_only_queued_jobs_start(v: LifecycleView, cancel_requested: bool)
    ensures
        start_step(v, cancel_requested).status == Status::Running <==> (v.status == Status::Queued
            && !cancel_requested) || (v.status == Status::Running),
{
}

/// Whether the sweep forgets a job: finished before `cutoff_ms`.
pub fn expired(status: Status, finished_ms: Option<i64>, cutoff_ms: i64) -> (res: bool)
    ensures
        res == (finished(status) && (finished_ms matches Some(t) && t < cutoff_ms)),
{
    status.is_finished() && match finished_ms {
        Some(t) => t < cutoff_ms,
        None => false,
    }
}

/// How often the sweep runs for jobs kept `ttl_ms`: a quarter of that,
/// between 30 seconds and 10 minutes.
pub fn sweep_every_ms(ttl_ms: u64) -> (res: u64)
    ensures
        res == if ttl_ms / 4 < 30_000 {
            30_000
        } else if ttl_ms / 4 > 600_000 {
            600_000
        } else {
            ttl_ms / 4
        },
{
    let q = ttl_ms / 4;
    if q < 30_000 {
        30_000
    } else if q > 600_000 {
        600_000
    } else {
        q
    }
}

/// Job `a` is listed before job `b`, each given by when it was created and
/// its id: newer first, then by id.
pub open spec fn listed_before(a: (i64, Seq<char>), b: (i64, Seq<char>)) -> bool {
    a.0 > b.0 || (a.0 == b.0 && lex_lt(a.1, b.1))
}

/// Job `a` may be listed ahead of job `b`.
pub open spec fn listed_ahead(a: (i64, Seq<char>), b: (i64, Seq<char>)) -> bool {
    !listed_before(b, a)
}

pub open spec fn job_key(jobs: Seq<(i64, String)>, i: int) -> (i64, Seq<char>) {
    (jobs[i].0, jobs[i].1@)
}

proof fn lemma_listed_chain(a: (i64, Seq<char>), b: (i64, Seq<char>), c: (i64, Seq<char>))
    requires
        listed_before(a, b),
        listed_ahead(b, c),
    ensures
        listed_ahead(a, c),
{
    if a.0 == b.0 && b.0 == c.0 && lex_lt(c.1, a.1) {
        crate::order::lemma_lex_transitive(c.1, a.1, b.1);
    }
}

fn before_exec(a: &(i64, String), b: &(i64, String)) -> (res: bool)
    ensures
        res == listed_before((a.0, a.1@), (b.0, b.1@)),
{
    if a.0 != b.0 {
        return a.0 > b.0;
    }
    let x = chars_of(a.1.as_str());
    let y = chars_of(b.1.as_str());
    let c = crate::order::compare_chars(x.as_slice(), y.as_slice());
    proof {
        crate::order::lemma_lex_irreflexive(a.1@);
        crate::order::lemma_lex_asymmetric(a.1@, b.1@);
    }
    c == -1
}

/// The order jobs are listed in, as positions into `jobs` (creation time
/// and id of each): newest first, then by id.
pub fn list_order(jobs: &Vec<(i64, String)>) -> (res: Vec<usize>)
    ensures
        res@.len() == jobs@.len(),
        forall|k: int| 0 <= k < res@.len() ==> (#[trigger] res@[k] as int) < jobs@.len(),
        forall|a: int, b: int| 0 <= a < b < res@.len() ==> res@[a] != res@[b],
        forall|a: int, b: int|
            0 <= a < b < res@.len() ==> listed_ahead(
                job_key(jobs@, #[trigger] res@[a] as int),
                job_key(jobs@, #[trigger] res@[b] as int),
            ),
{
    let n = jobs.len();
    let mut out: Vec<usize> = Vec::new();
    let mut i: usize = 0;
    while i < n
        invariant
            n == jobs@.len(),
            i <= n,
            out@.len() == i,
            forall|k: int| 0 <= k < out@.len() ==> (#[trigger] out@[k] as int) < i,
            forall|a: int, b: int| 0 <= a < b < out@.len() ==> out@[a] != out@[b],
            forall|a: int, b: int|
                0 <= a < b < out@.len() ==> listed_ahead(
                    job_key(jobs@, #[trigger] out@[a] as int),
                    job_key(jobs@, #[trigger] out@[b] as int),
                ),
        decreases n - i,
    {
        let mut p: usize = 0;
        while p < out.len() && !before_exec(&jobs[i], &jobs[out[p]])
            invariant
                n == jobs@.len(),
                i < n,
                p <= out@.len(),
                forall|k: int| 0 <= k < out@.len() ==> (#[trigger] out@[k] as int) < i,
                forall|q: int|
                    0 <= q < p ==> !listed_before(
                        job_key(jobs@, i as int),
                        job_key(jobs@, #[trigger] out@[q] as int),
                    ),
            decreases out.len() - p,
        {
            p += 1;
        }
        let ghost before = out@;
        out.insert(p, i);
        proof {
            let ki = job_key(jobs@, i as int);
            assert forall|a: int, b: int| 0 <= a < b < out@.len() implies listed_ahead(
                job_key(jobs@, #[trigger] out@[a] as int),
                job_key(jobs@, #[trigger] out@[b] as int),
            ) by {
                if a < p && b == p {
                } else if a == p {
                    if p < before.len() {
                        assert(listed_before(ki, job_key(jobs@, before[p as int] as int)));
                        crate::order::lemma_lex_irreflexive(job_key(jobs@, before[p as int] as int).1);
                        if b > p + 1 {
                            assert(listed_ahead(
                                job_key(jobs@, before[p as int] as int),
                                job_key(jobs@, before[b - 1] as int),
                            ));
                        }
                        lemma_listed_chain(
                            ki,
                            job_key(jobs@, before[p as int] as int),
                            job_key(jobs@, before[b - 1] as int),
                        );
                    }
                } else if b < p {
                    assert(out@[a] == before[a] && out@[b] == before[b]);
                } else if a < p {
                    assert(out@[a] == before[a] && out@[b] == before[b - 1]);
                } else {
                    assert(out@[a] == before[a - 1] && out@[b] == before[b - 1]);
                }
            }
            assert forall|a: int, b: int| 0 <= a < b < out@.len() implies out@[a] != out@[b] by {
                if a == p {
                    assert(out@[b] == before[b - 1]);
                } else if b == p {
                    assert(out@[a] == before[a]);
                } else if b < p {
                    assert(out@[a] == before[a] && out@[b] == before[b]);
                } else if a < p {
                    assert(out@[a] == before[a] && out@[b] == before[b - 1]);
                } else {
                    assert(out@[a] == before[a - 1] && out@[b] == before[b - 1]);
                }
            }
            assert forall|k: int| 0 <= k < out@.len() implies (#[trigger] out@[k] as int) < i + 1 by {
                if k < p {
                    assert(out@[k] == before[k]);
                } else if k > p {
                    assert(out@[k] == before[k - 1]);
                }
            }
        }
        i += 1;
    }
    out
}

/// The order of `names` sorted by `str`'s order, as positions into
/// `names`; equal names keep no particular order.
pub fn name_order(names: &Vec<String>) -> (res: Vec<usize>)
    ensures
        res@.len() == names@.len(),
        forall|k: int| 0 <= k < res@.len() ==> (#[trigger] res@[k] as int) < names@.len(),
        forall|a: int, b: int| 0 <= a < b < res@.len() ==> res@[a] != res@[b],
        forall|a: int, b: int|
            0 <= a < b < res@.len() ==> !lex_lt(
                names@[#[trigger] res@[b] as int]@,
                names@[#[trigger] res@[a] as int]@,
            ),
{
    let mut keyed: Vec<(i64, String)> = Vec::new();
    let mut i: usize = 0;
    while i < names.len()
        invariant
            i <= names@.len(),
            keyed@.len() == i,
            forall|j: int| 0 <= j < i ==> #[trigger] job_key(keyed@, j) == (0i64, names@[j]@),
        decreases names.len() - i,
    {
        let ghost before = keyed@;
        let name = names[i].clone();
        keyed.push((0, name));
        assert forall|j: int| 0 <= j < i + 1 implies #[trigger] job_key(keyed@, j) == (
            0i64,
            names@[j]@,
        ) by {
            if j < i {
                assert(keyed@[j] == before[j]);
                assert(job_key(before, j) == (0i64, names@[j]@));
            }
        }
        i += 1;
    }
    let order = list_order(&keyed);
    assert forall|a: int, b: int| 0 <= a < b < order@.len() implies !lex_lt(
        names@[#[trigger] order@[b] as int]@,
        names@[#[trigger] order@[a] as int]@,
    ) by {
        assert(listed_ahead(job_key(keyed@, order@[a] as int), job_key(keyed@, order@[b] as int)));
        assert(job_key(keyed@, order@[a] as int) == (0i64, names@[order@[a] as int]@));
        assert(job_key(keyed@, order@[b] as int) == (0i64, names@[order@[b] as int]@));
    }
    order
}

/// A file in the work folders the sweep deletes: older than the TTL
/// (`stale`), a plain file, and not one a job still owns.
pub fn is_stray(path: &str, stale: bool, is_file: bool, live: &[String]) -> (res: bool)
    ensures
        res == (stale && is_file && !views(live@).contains(path@)),
{
    if !(stale && is_file) {
        return false;
    }
    let mut i: usize = 0;
    while i < live.len()
        invariant
            i <= live@.len(),
            forall|j: int| 0 <= j < i ==> live@[j]@ != path@,
        decreases live.len() - i,
    {
        if str_eq(live[i].as_str(), path) {
            assert(views(live@)[i as int] == path@);
            return false;
        }
        i += 1;
    }
    assert(!views(live@).contains(path@)) by {
        if views(live@).contains(path@) {
            let k = choose|k: int| 0 <= k < views(live@).len() && views(live@)[k] == path@;
            assert(live@[k]@ == path@);
        }
    }
    true
}

} // verus!
