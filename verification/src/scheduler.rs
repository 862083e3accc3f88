//! The per-metric adaptive scheduler and collection engine.
//!
//! The engine owns the list of metric subscriptions, each with an independent
//! countdown on a shared millisecond grid.  On each tick it subtracts the
//! elapsed time from every countdown, groups the subscriptions that came due
//! into per-backend, per-job request lists, resets their countdowns, merges
//! returned observation bundles into the running snapshot, and computes the
//! delay until the next tick is worth attempting.

use vstd::prelude::*;

use vstd::multiset::Multiset;

use crate::catalog::Catalog;
use crate::catalog::compress_metric_names;
use crate::catalog::id_digits;
use crate::metric::Metric;
use crate::metric::MetricModel;
use crate::metric::MetricValues;
use crate::metric::MetricValuesModel;
use crate::metric::clone_i64s;
use crate::metric::clone_strings;
use crate::metric::string_vecs_equal;
use crate::metric::USE_BASE_PERIOD;
use crate::sampling::round_sampling;
use crate::sampling::rounded_period;
use crate::metric::strings_equal;

verus! {

broadcast use vstd::seq_lib::group_to_multiset_ensures;

/// Cap on configured periods and countdowns, in milliseconds (about 1100
/// years): keeps every countdown subtraction inside `i64`.
pub const MAX_PERIOD_MS: i64 = 0x2000_0000_0000;

/// Cap on tick timestamps, in milliseconds (about 2200 years past the
/// epoch): keeps every elapsed-time computation inside `i64`.
pub const MAX_TIMESTAMP_MS: i64 = 0x4000_0000_0000;

/// The due subscriptions of one job, in subscription order.
pub struct JobRequest {
    pub job_id: i32,
    pub metrics: Vec<Metric>,
}

/// Mathematical image of a `JobRequest`.
#[verifier::ext_equal]
pub struct JobRequestModel {
    pub job_id: int,
    pub metrics: Seq<MetricModel>,
}

impl View for JobRequest {
    type V = JobRequestModel;

    open spec fn view(&self) -> JobRequestModel {
        JobRequestModel { job_id: self.job_id as int, metrics: self.metrics.deep_view() }
    }
}

impl DeepView for JobRequest {
    type V = JobRequestModel;

    open spec fn deep_view(&self) -> JobRequestModel {
        self.view()
    }
}

/// The due subscriptions of one backend, grouped by job.
pub struct BackendRequest {
    pub backend_name: String,
    pub jobs: Vec<JobRequest>,
}

/// Mathematical image of a `BackendRequest`.
#[verifier::ext_equal]
pub struct BackendRequestModel {
    pub backend_name: Seq<char>,
    pub jobs: Seq<JobRequestModel>,
}

impl View for BackendRequest {
    type V = BackendRequestModel;

    open spec fn view(&self) -> BackendRequestModel {
        BackendRequestModel { backend_name: self.backend_name@, jobs: self.jobs.deep_view() }
    }
}

impl DeepView for BackendRequest {
    type V = BackendRequestModel;

    open spec fn deep_view(&self) -> BackendRequestModel {
        self.view()
    }
}

/// A subscription is due once the elapsed time has consumed its countdown.
pub open spec fn is_due(m: MetricModel, delta: int) -> bool {
    m.time_remaining_before_next_measure - delta <= 0
}

/// The countdown a due subscription is reset to: its own normalized period,
/// or the engine's base period for the sentinel.
pub open spec fn reset_countdown(m: MetricModel, base: int) -> int {
    if m.sampling_period == USE_BASE_PERIOD as int {
        base
    } else {
        m.sampling_period
    }
}

/// How a subscription looks after a tick that consumed `delta` milliseconds.
pub open spec fn ticked_metric(m: MetricModel, delta: int, base: int) -> MetricModel {
    MetricModel {
        time_remaining_before_next_measure: if is_due(m, delta) {
            reset_countdown(m, base)
        } else {
            m.time_remaining_before_next_measure - delta
        },
        ..m
    }
}

/// How many subscriptions of `s` are due after `delta` elapsed milliseconds.
pub open spec fn due_count(s: Seq<MetricModel>, delta: int) -> int
    decreases s.len(),
{
    if s.len() == 0 {
        0
    } else {
        due_count(s.drop_last(), delta) + if is_due(s.last(), delta) {
            1int
        } else {
            0int
        }
    }
}

pub proof fn lemma_due_count_nonneg(s: Seq<MetricModel>, delta: int)
    ensures
        due_count(s, delta) >= 0,
    decreases s.len(),
{
    if s.len() > 0 {
        lemma_due_count_nonneg(s.drop_last(), delta);
    }
}

/// The due subscriptions of `s` that belong to backend `b` and job `j`, in
/// subscription order.
pub open spec fn due_selection(s: Seq<MetricModel>, delta: int, b: Seq<char>, j: int) -> Seq<
    MetricModel,
>
    decreases s.len(),
{
    if s.len() == 0 {
        Seq::empty()
    } else {
        let rest = due_selection(s.drop_last(), delta, b, j);
        if is_due(s.last(), delta) && s.last().backend_name == b && s.last().job_id == j {
            rest.push(
                MetricModel {
                    time_remaining_before_next_measure:
                        s.last().time_remaining_before_next_measure - delta,
                    ..s.last()
                },
            )
        } else {
            rest
        }
    }
}

/// The job list a grouped request holds for backend `b` (empty when the
/// backend has no due subscription).
pub open spec fn backend_jobs(groups: Seq<BackendRequestModel>, b: Seq<char>) -> Seq<
    JobRequestModel,
> {
    if exists|g: int| 0 <= g < groups.len() && (#[trigger] groups[g]).backend_name == b {
        let g = choose|g: int| 0 <= g < groups.len() && (#[trigger] groups[g]).backend_name == b;
        groups[g].jobs
    } else {
        Seq::empty()
    }
}

/// The metric list a job list holds for job `j` (empty when the job has no
/// due subscription).
pub open spec fn job_metrics(jobs: Seq<JobRequestModel>, j: int) -> Seq<MetricModel> {
    if exists|i: int| 0 <= i < jobs.len() && (#[trigger] jobs[i]).job_id == j {
        let i = choose|i: int| 0 <= i < jobs.len() && (#[trigger] jobs[i]).job_id == j;
        jobs[i].metrics
    } else {
        Seq::empty()
    }
}

/// The metric list a grouped request holds for backend `b` and job `j`.
pub open spec fn metrics_for(groups: Seq<BackendRequestModel>, b: Seq<char>, j: int) -> Seq<
    MetricModel,
> {
    job_metrics(backend_jobs(groups, b), j)
}

/// Backend names are distinct across groups, and job ids are distinct
/// within each group.
pub open spec fn groups_wf(groups: Seq<BackendRequestModel>) -> bool {
    &&& forall|g1: int, g2: int|
        0 <= g1 < g2 < groups.len() ==> (#[trigger] groups[g1]).backend_name != (
        #[trigger] groups[g2]).backend_name
    &&& forall|g: int, i1: int, i2: int|
        0 <= g < groups.len() && 0 <= i1 < i2 < groups[g].jobs.len() ==> (
        #[trigger] groups[g].jobs[i1]).job_id != (#[trigger] groups[g].jobs[i2]).job_id
}

/// With distinct backend names, the group at a known index is the one a
/// lookup finds.
pub proof fn lemma_backend_jobs_at(groups: Seq<BackendRequestModel>, k: int)
    requires
        forall|g1: int, g2: int|
            0 <= g1 < g2 < groups.len() ==> (#[trigger] groups[g1]).backend_name != (
            #[trigger] groups[g2]).backend_name,
        0 <= k < groups.len(),
    ensures
        backend_jobs(groups, groups[k].backend_name) == groups[k].jobs,
{
    let b = groups[k].backend_name;
    assert(0 <= k < groups.len() && groups[k].backend_name == b);
    let g = choose|g: int| 0 <= g < groups.len() && (#[trigger] groups[g]).backend_name == b;
    assert(g == k);
}

/// With distinct job ids, the job at a known index is the one a lookup
/// finds.
pub proof fn lemma_job_metrics_at(jobs: Seq<JobRequestModel>, k: int)
    requires
        forall|i1: int, i2: int|
            0 <= i1 < i2 < jobs.len() ==> (#[trigger] jobs[i1]).job_id != (
            #[trigger] jobs[i2]).job_id,
        0 <= k < jobs.len(),
    ensures
        job_metrics(jobs, jobs[k].job_id) == jobs[k].metrics,
{
    let j = jobs[k].job_id;
    assert(0 <= k < jobs.len() && jobs[k].job_id == j);
    let i = choose|i: int| 0 <= i < jobs.len() && (#[trigger] jobs[i]).job_id == j;
    assert(i == k);
}

/// One per-job snapshot entry: what was last observed for this job, stamped
/// with the hostname, tick timestamp and catalog version of the tick that
/// created it.
pub struct SnapshotEntry {
    pub job_id: i32,
    pub hostname: String,
    pub timestamp: i64,
    pub version: i64,
    pub measures: Vec<MetricValues>,
}

/// Mathematical image of a `SnapshotEntry`.
#[verifier::ext_equal]
pub struct SnapshotEntryModel {
    pub job_id: int,
    pub hostname: Seq<char>,
    pub timestamp: int,
    pub version: int,
    pub measures: Seq<crate::metric::MetricValuesModel>,
}

impl View for SnapshotEntry {
    type V = SnapshotEntryModel;

    open spec fn view(&self) -> SnapshotEntryModel {
        SnapshotEntryModel {
            job_id: self.job_id as int,
            hostname: self.hostname@,
            timestamp: self.timestamp as int,
            version: self.version as int,
            measures: self.measures.deep_view(),
        }
    }
}

impl DeepView for SnapshotEntry {
    type V = SnapshotEntryModel;

    open spec fn deep_view(&self) -> SnapshotEntryModel {
        self.view()
    }
}

/// A subscription the engine can hold: its period is the sentinel or
/// positive, and period and countdown are small enough that a tick's
/// arithmetic stays inside `i64`.
pub open spec fn metric_wf(m: MetricModel) -> bool {
    &&& (m.sampling_period == USE_BASE_PERIOD as int || 0 < m.sampling_period <= 2 * (
    MAX_PERIOD_MS as int))
    &&& -(MAX_PERIOD_MS as int) <= m.time_remaining_before_next_measure <= 2 * (
    MAX_PERIOD_MS as int)
}

/// The collection engine.
pub struct BackendsManager {
    /// The loaded metric catalog; immutable after construction.
    pub catalog: Catalog,
    /// The current subscriptions, each with its countdown.
    pub metrics_to_get: Vec<Metric>,
    /// The timestamp of the previous tick, 0 before the first tick.
    pub last_timestamp: i64,
    /// The base period, in milliseconds.
    pub sample_period: i64,
    /// The running snapshot: one entry per job measured since the last
    /// reconfiguration.
    pub last_measurement: Vec<SnapshotEntry>,
    /// Set by reconfiguration; makes the next tick discard the snapshot.
    pub metrics_modified: bool,
}

impl BackendsManager {
    /// What every engine state satisfies: a well-formed catalog, bounded
    /// base period, timestamp and subscriptions, and a snapshot keyed by
    /// distinct job ids whose bundles keep names and values aligned.
    pub open spec fn wf(&self) -> bool {
        &&& self.catalog.wf()
        &&& 0 < self.sample_period <= MAX_PERIOD_MS
        &&& 0 <= self.last_timestamp <= MAX_TIMESTAMP_MS
        &&& forall|k: int|
            0 <= k < self.metrics_to_get.deep_view().len() ==> metric_wf(
                #[trigger] self.metrics_to_get.deep_view()[k],
            )
        &&& forall|k1: int, k2: int|
            0 <= k1 < k2 < self.last_measurement@.len() ==> (
            #[trigger] self.last_measurement@[k1]).job_id != (
            #[trigger] self.last_measurement@[k2]).job_id
        &&& forall|k: int, b: int|
            0 <= k < self.last_measurement@.len() && 0 <= b
                < self.last_measurement@[k].measures.deep_view().len() ==> (
            #[trigger] self.last_measurement@[k].measures.deep_view()[b]).wf()
    }

    /// Subtract the elapsed time from every countdown and group what came
    /// due — exactly the due subscriptions, per backend and per job, in
    /// subscription order, each carried with its decremented countdown —
    /// resetting each due countdown to its subscription's period (or the
    /// base period).  After the call every countdown is positive.
    pub fn get_metrics_to_collect_now(&mut self, delta_t: i64) -> (r: Vec<BackendRequest>)
        requires
            old(self).wf(),
            0 <= delta_t <= 2 * MAX_TIMESTAMP_MS,
        ensures
            final(self).wf(),
            final(self).catalog == old(self).catalog,
            final(self).last_timestamp == old(self).last_timestamp,
            final(self).sample_period == old(self).sample_period,
            final(self).last_measurement == old(self).last_measurement,
            final(self).metrics_modified == old(self).metrics_modified,
            final(self).metrics_to_get.deep_view().len() == old(
                self,
            ).metrics_to_get.deep_view().len(),
            forall|k: int|
                0 <= k < old(self).metrics_to_get.deep_view().len() ==> #[trigger] final(self).metrics_to_get.deep_view()[k] == ticked_metric(
                    old(self).metrics_to_get.deep_view()[k],
                    delta_t as int,
                    old(self).sample_period as int,
                ),
            forall|k: int|
                0 <= k < final(self).metrics_to_get.deep_view().len() ==> (#[trigger] final(self).metrics_to_get.deep_view()[k]).time_remaining_before_next_measure > 0,
            groups_wf(r.deep_view()),
            forall|b: Seq<char>, j: int| #[trigger]
                metrics_for(r.deep_view(), b, j) == due_selection(
                    old(self).metrics_to_get.deep_view(),
                    delta_t as int,
                    b,
                    j,
                ),
            (r@.len() == 0) == (due_count(old(self).metrics_to_get.deep_view(), delta_t as int)
                == 0),
    {
        let ghost orig = self.metrics_to_get.deep_view();
        let ghost delta = delta_t as int;
        let ghost base = self.sample_period as int;
        let mut groups: Vec<BackendRequest> = Vec::new();
        let mut i: usize = 0;
        while i < self.metrics_to_get.len()
            invariant
                i <= self.metrics_to_get@.len(),
                self.wf(),
                old(self).wf(),
                0 <= delta_t <= 2 * MAX_TIMESTAMP_MS,
                self.catalog == old(self).catalog,
                self.last_timestamp == old(self).last_timestamp,
                self.sample_period == old(self).sample_period,
                self.last_measurement == old(self).last_measurement,
                self.metrics_modified == old(self).metrics_modified,
                orig == old(self).metrics_to_get.deep_view(),
                delta == delta_t as int,
                base == old(self).sample_period as int,
                self.metrics_to_get.deep_view().len() == orig.len(),
                forall|k: int|
                    0 <= k < i ==> #[trigger] self.metrics_to_get.deep_view()[k] == ticked_metric(
                        orig[k],
                        delta,
                        base,
                    ),
                forall|k: int|
                    i <= k < orig.len() ==> #[trigger] self.metrics_to_get.deep_view()[k]
                        == orig[k],
                forall|k: int|
                    0 <= k < i ==> (#[trigger] self.metrics_to_get.deep_view()[k]).time_remaining_before_next_measure
                        > 0,
                groups_wf(groups.deep_view()),
                forall|b: Seq<char>, j: int| #[trigger]
                    metrics_for(groups.deep_view(), b, j) == due_selection(
                        orig.take(i as int),
                        delta,
                        b,
                        j,
                    ),
                (groups@.len() == 0) == (due_count(orig.take(i as int), delta) == 0),
            decreases self.metrics_to_get@.len() - i,
        {
            let ghost gs_before = groups.deep_view();
            let ghost dv_before = self.metrics_to_get.deep_view();
            proof {
                assert(orig.take(i as int + 1).drop_last() =~= orig.take(i as int));
                assert(orig.take(i as int + 1).last() == orig[i as int]);
            }
            let m = self.metrics_to_get[i].clone();
            proof {
                assert(self.metrics_to_get.deep_view()[i as int] == self.metrics_to_get@[
                    i as int
                ].deep_view());
                assert(m@ == orig[i as int]);
                assert(metric_wf(orig[i as int]));
            }
            let nc = m.time_remaining_before_next_measure - delta_t;
            if nc <= 0 {
                let reset = if m.sampling_period == USE_BASE_PERIOD {
                    self.sample_period
                } else {
                    m.sampling_period
                };
                let updated = Metric {
                    job_id: m.job_id,
                    metric_name: m.metric_name.clone(),
                    backend_name: m.backend_name.clone(),
                    sampling_period: m.sampling_period,
                    time_remaining_before_next_measure: reset,
                };
                let ghost mv_before = self.metrics_to_get@;
                self.metrics_to_get.set(i, updated);
                proof {
                    assert forall|k: int|
                        0 <= k < self.metrics_to_get.deep_view().len() && k != i as int implies (
                    #[trigger] self.metrics_to_get.deep_view()[k]) == dv_before[k] by {
                        assert(self.metrics_to_get.deep_view()[k] == self.metrics_to_get@[
                            k
                        ].deep_view());
                        assert(self.metrics_to_get@[k] == mv_before[k]);
                        assert(dv_before[k] == mv_before[k].deep_view());
                    }
                    assert(self.metrics_to_get.deep_view()[i as int] == updated@);
                    assert forall|k: int| 0 <= k < self.metrics_to_get.deep_view().len() implies (
                    #[trigger] self.metrics_to_get.deep_view()[k]) == (if k == i as int {
                        ticked_metric(orig[k], delta, base)
                    } else {
                        mv_before[k].deep_view()
                    }) by {
                        assert(self.metrics_to_get.deep_view()[k] == self.metrics_to_get@[
                            k
                        ].deep_view());
                        if k != i as int {
                            assert(self.metrics_to_get@[k] == mv_before[k]);
                        } else {
                            assert(updated@ == ticked_metric(orig[k], delta, base));
                        }
                    }
                }
                let carried = Metric {
                    job_id: m.job_id,
                    metric_name: m.metric_name.clone(),
                    backend_name: m.backend_name.clone(),
                    sampling_period: m.sampling_period,
                    time_remaining_before_next_measure: nc,
                };
                let ghost cm = carried@;
                let ghost bname = m.backend_name@;
                let ghost jid = m.job_id as int;
                proof {
                    assert(is_due(orig[i as int], delta));
                    assert(cm == MetricModel {
                        time_remaining_before_next_measure:
                            orig[i as int].time_remaining_before_next_measure - delta,
                        ..orig[i as int]
                    });
                }
                add_to_groups(&mut groups, carried);
                proof {
                    assert forall|b: Seq<char>, j: int| #[trigger]
                        metrics_for(groups.deep_view(), b, j) == due_selection(
                            orig.take(i as int + 1),
                            delta,
                            b,
                            j,
                        ) by {
                        if b == bname && j == jid {
                            assert(metrics_for(groups.deep_view(), b, j) == metrics_for(
                                gs_before,
                                b,
                                j,
                            ).push(cm));
                        } else {
                            assert(metrics_for(groups.deep_view(), b, j) == metrics_for(
                                gs_before,
                                b,
                                j,
                            ));
                        }
                    }
                    lemma_due_count_nonneg(orig.take(i as int), delta);
                    assert(due_count(orig.take(i as int + 1), delta) == due_count(
                        orig.take(i as int),
                        delta,
                    ) + 1);
                    assert(groups@.len() > 0);
                }
            } else {
                let updated = Metric {
                    job_id: m.job_id,
                    metric_name: m.metric_name.clone(),
                    backend_name: m.backend_name.clone(),
                    sampling_period: m.sampling_period,
                    time_remaining_before_next_measure: nc,
                };
                let ghost mv_before = self.metrics_to_get@;
                self.metrics_to_get.set(i, updated);
                proof {
                    assert forall|k: int|
                        0 <= k < self.metrics_to_get.deep_view().len() && k != i as int implies (
                    #[trigger] self.metrics_to_get.deep_view()[k]) == dv_before[k] by {
                        assert(self.metrics_to_get.deep_view()[k] == self.metrics_to_get@[
                            k
                        ].deep_view());
                        assert(self.metrics_to_get@[k] == mv_before[k]);
                        assert(dv_before[k] == mv_before[k].deep_view());
                    }
                    assert(self.metrics_to_get.deep_view()[i as int] == updated@);
                    assert forall|k: int| 0 <= k < self.metrics_to_get.deep_view().len() implies (
                    #[trigger] self.metrics_to_get.deep_view()[k]) == (if k == i as int {
                        ticked_metric(orig[k], delta, base)
                    } else {
                        mv_before[k].deep_view()
                    }) by {
                        assert(self.metrics_to_get.deep_view()[k] == self.metrics_to_get@[
                            k
                        ].deep_view());
                        if k != i as int {
                            assert(self.metrics_to_get@[k] == mv_before[k]);
                        } else {
                            assert(updated@ == ticked_metric(orig[k], delta, base));
                        }
                    }
                    assert(!is_due(orig[i as int], delta));
                    assert(due_count(orig.take(i as int + 1), delta) == due_count(
                        orig.take(i as int),
                        delta,
                    ));
                    assert forall|b: Seq<char>, j: int| #[trigger]
                        metrics_for(groups.deep_view(), b, j) == due_selection(
                            orig.take(i as int + 1),
                            delta,
                            b,
                            j,
                        ) by {
                        assert(due_selection(orig.take(i as int + 1), delta, b, j)
                            == due_selection(orig.take(i as int), delta, b, j));
                    }
                }
            }
            i += 1;
        }
        proof {
            assert(orig.take(orig.len() as int) =~= orig);
        }
        groups
    }
}

/// Append one due subscription (already carrying its decremented countdown)
/// to the grouped request list, creating its backend group or job slot if
/// absent; every other backend/job slot is left as it was.
fn add_to_groups(groups: &mut Vec<BackendRequest>, carried: Metric)
    requires
        groups_wf(old(groups).deep_view()),
    ensures
        groups_wf(final(groups).deep_view()),
        final(groups)@.len() > 0,
        metrics_for(final(groups).deep_view(), carried.backend_name@, carried.job_id as int)
            == metrics_for(
            old(groups).deep_view(),
            carried.backend_name@,
            carried.job_id as int,
        ).push(carried@),
        forall|b: Seq<char>, j: int|
            !(b == carried.backend_name@ && j == carried.job_id as int) ==> #[trigger] metrics_for(
                final(groups).deep_view(),
                b,
                j,
            ) == metrics_for(old(groups).deep_view(), b, j),
{
    let ghost gs0 = groups.deep_view();
    let ghost bname = carried.backend_name@;
    let ghost jid = carried.job_id as int;
    let mut gi: usize = 0;
    let mut found_g = false;
    while gi < groups.len()
        invariant_except_break
            !found_g,
            forall|k: int| 0 <= k < gi ==> (#[trigger] gs0[k]).backend_name != bname,
        invariant
            gi <= groups@.len(),
            groups.deep_view() == gs0,
            bname == carried.backend_name@,
        ensures
            found_g ==> gi < groups@.len() && gs0[gi as int].backend_name == bname,
            !found_g ==> forall|k: int|
                0 <= k < gs0.len() ==> (#[trigger] gs0[k]).backend_name != bname,
        decreases groups@.len() - gi,
    {
        proof {
            assert(gs0[gi as int] == groups@[gi as int].deep_view());
        }
        if strings_equal(&groups[gi].backend_name, &carried.backend_name) {
            found_g = true;
            break;
        }
        gi += 1;
    }
    if !found_g {
        proof {
            assert forall|k: int| 0 <= k < gs0.len() implies (#[trigger] gs0[k]).backend_name
                != bname by {}
            assert(!exists|g: int|
                0 <= g < gs0.len() && (#[trigger] gs0[g]).backend_name == bname);
        }
        let name_copy = carried.backend_name.clone();
        let jid_copy = carried.job_id;
        let mut ms: Vec<Metric> = Vec::new();
        let ghost cm = carried@;
        ms.push(carried);
        let mut jobs: Vec<JobRequest> = Vec::new();
        jobs.push(JobRequest { job_id: jid_copy, metrics: ms });
        groups.push(BackendRequest { backend_name: name_copy, jobs });
        proof {
            let gs1 = groups.deep_view();
            let newlen = gs1.len();
            assert(gs1.len() == gs0.len() + 1);
            assert forall|k: int| 0 <= k < gs0.len() implies gs1[k] == gs0[k] by {
                assert(gs1[k] == groups@[k].deep_view());
            }
            assert(gs1[gs0.len() as int].backend_name == bname);
            assert(gs1[gs0.len() as int].jobs.len() == 1);
            assert(gs1[gs0.len() as int].jobs[0].job_id == jid);
            assert(gs1[gs0.len() as int].jobs[0].metrics =~= seq![cm]);
            lemma_backend_jobs_at(gs1, gs0.len() as int);
            lemma_job_metrics_at(gs1[gs0.len() as int].jobs, 0);
            assert(metrics_for(gs1, bname, jid) =~= Seq::<MetricModel>::empty().push(cm));
            assert(metrics_for(gs0, bname, jid) =~= Seq::<MetricModel>::empty());
            assert forall|b: Seq<char>, j: int|
                !(b == bname && j == jid) implies #[trigger] metrics_for(gs1, b, j)
                == metrics_for(gs0, b, j) by {
                if b == bname {
                    lemma_backend_jobs_at(gs1, gs0.len() as int);
                    assert(backend_jobs(gs1, b) == gs1[gs0.len() as int].jobs);
                    assert(job_metrics(gs1[gs0.len() as int].jobs, j)
                        =~= Seq::<MetricModel>::empty());
                    assert(backend_jobs(gs0, b) =~= Seq::<JobRequestModel>::empty());
                } else {
                    if exists|g: int| 0 <= g < gs0.len() && (#[trigger] gs0[g]).backend_name == b {
                        let g = choose|g: int|
                            0 <= g < gs0.len() && (#[trigger] gs0[g]).backend_name == b;
                        assert(gs1[g].backend_name == b);
                        lemma_backend_jobs_at(gs0, g);
                        lemma_backend_jobs_at(gs1, g);
                    } else {
                        assert forall|g: int|
                            0 <= g < gs1.len() implies (#[trigger] gs1[g]).backend_name != b by {
                            if g < gs0.len() {
                                assert(gs1[g] == gs0[g]);
                            }
                        }
                        assert(backend_jobs(gs1, b) =~= Seq::<JobRequestModel>::empty());
                        assert(backend_jobs(gs0, b) =~= Seq::<JobRequestModel>::empty());
                    }
                }
            }
        }
        return ;
    }
    // The backend group exists at gi; add to it.
    let mut g = groups.remove(gi);
    let ghost gmodel = g.deep_view();
    let ghost jobs0 = gmodel.jobs;
    let mut ji: usize = 0;
    let mut found_j = false;
    while ji < g.jobs.len()
        invariant_except_break
            !found_j,
            forall|k: int| 0 <= k < ji ==> (#[trigger] jobs0[k]).job_id != jid,
        invariant
            ji <= g.jobs@.len(),
            g.deep_view() == gmodel,
            jobs0 == gmodel.jobs,
            carried.job_id as int == jid,
        ensures
            g.deep_view() == gmodel,
            found_j ==> ji < g.jobs@.len() && jobs0[ji as int].job_id == jid,
            !found_j ==> forall|k: int|
                0 <= k < jobs0.len() ==> (#[trigger] jobs0[k]).job_id != jid,
        decreases g.jobs@.len() - ji,
    {
        proof {
            assert(jobs0[ji as int] == g.jobs@[ji as int].deep_view());
        }
        if g.jobs[ji].job_id == carried.job_id {
            found_j = true;
            break;
        }
        ji += 1;
    }
    let ghost cm = carried@;
    if !found_j {
        let jid_copy = carried.job_id;
        let mut ms: Vec<Metric> = Vec::new();
        ms.push(carried);
        g.jobs.push(JobRequest { job_id: jid_copy, metrics: ms });
        proof {
            let jobs1 = g.deep_view().jobs;
            assert(jobs1.len() == jobs0.len() + 1);
            assert forall|k: int| 0 <= k < jobs0.len() implies jobs1[k] == jobs0[k] by {
                assert(jobs1[k] == g.jobs@[k].deep_view());
            }
            assert(jobs1[jobs0.len() as int].job_id == jid);
            assert(jobs1[jobs0.len() as int].metrics =~= seq![cm]);
        }
    } else {
        let mut jr = g.jobs.remove(ji);
        jr.metrics.push(carried);
        g.jobs.insert(ji, jr);
        proof {
            let jobs1 = g.deep_view().jobs;
            assert(jobs1.len() == jobs0.len());
            assert forall|k: int| 0 <= k < jobs0.len() && k != ji as int implies jobs1[k]
                == jobs0[k] by {
                assert(jobs1[k] == g.jobs@[k].deep_view());
            }
            assert(jobs1[ji as int].job_id == jid);
            assert(jobs1[ji as int].metrics =~= jobs0[ji as int].metrics.push(cm));
        }
    }
    let ghost gnew = g.deep_view();
    groups.insert(gi, g);
    proof {
        let gs1 = groups.deep_view();
        assert(gs1 =~= gs0.update(gi as int, gnew));
        assert(gnew.backend_name == bname);
        let jobs1 = gnew.jobs;
        // Well-formedness of the rebuilt group list.
        assert forall|g1: int, g2: int| 0 <= g1 < g2 < gs1.len() implies (
        #[trigger] gs1[g1]).backend_name != (#[trigger] gs1[g2]).backend_name by {
            assert(gs0[g1].backend_name == gs1[g1].backend_name);
            assert(gs0[g2].backend_name == gs1[g2].backend_name);
        }
        assert forall|gg: int, i1: int, i2: int|
            0 <= gg < gs1.len() && 0 <= i1 < i2 < gs1[gg].jobs.len() implies (
        #[trigger] gs1[gg].jobs[i1]).job_id != (#[trigger] gs1[gg].jobs[i2]).job_id by {
            if gg == gi as int {
                if !found_j {
                    assert(forall|k: int|
                        0 <= k < jobs0.len() ==> (#[trigger] jobs0[k]).job_id != jid);
                    if i2 == jobs0.len() as int {
                        assert(jobs1[i1] == jobs0[i1]);
                    } else {
                        assert(jobs1[i1] == jobs0[i1]);
                        assert(jobs1[i2] == jobs0[i2]);
                    }
                } else {
                    assert(jobs1[i1].job_id == jobs0[i1].job_id);
                    assert(jobs1[i2].job_id == jobs0[i2].job_id);
                }
            } else {
                assert(gs1[gg] == gs0[gg]);
            }
        }
        // The target slot gained exactly the carried subscription.
        lemma_backend_jobs_at(gs0, gi as int);
        lemma_backend_jobs_at(gs1, gi as int);
        if !found_j {
            assert(forall|k: int| 0 <= k < jobs0.len() ==> (#[trigger] jobs0[k]).job_id != jid);
            assert(job_metrics(jobs0, jid) =~= Seq::<MetricModel>::empty());
            lemma_job_metrics_at(jobs1, jobs0.len() as int);
            assert(job_metrics(jobs1, jid) =~= seq![cm]);
            assert(metrics_for(gs1, bname, jid) =~= metrics_for(gs0, bname, jid).push(cm));
        } else {
            lemma_job_metrics_at(jobs0, ji as int);
            lemma_job_metrics_at(jobs1, ji as int);
            assert(metrics_for(gs1, bname, jid) =~= metrics_for(gs0, bname, jid).push(cm));
        }
        // Every other slot is untouched.
        assert forall|b: Seq<char>, j: int|
            !(b == bname && j == jid) implies #[trigger] metrics_for(gs1, b, j) == metrics_for(
            gs0,
            b,
            j,
        ) by {
            if b == bname {
                assert(backend_jobs(gs0, b) == jobs0);
                assert(backend_jobs(gs1, b) == jobs1);
                if !found_j {
                    if exists|k: int| 0 <= k < jobs0.len() && (#[trigger] jobs0[k]).job_id == j {
                        let k = choose|k: int|
                            0 <= k < jobs0.len() && (#[trigger] jobs0[k]).job_id == j;
                        lemma_job_metrics_at(jobs0, k);
                        lemma_job_metrics_at(jobs1, k);
                    } else {
                        assert forall|k: int|
                            0 <= k < jobs1.len() implies (#[trigger] jobs1[k]).job_id != j by {
                            if k < jobs0.len() {
                                assert(jobs1[k] == jobs0[k]);
                            }
                        }
                        assert(job_metrics(jobs1, j) =~= Seq::<MetricModel>::empty());
                        assert(job_metrics(jobs0, j) =~= Seq::<MetricModel>::empty());
                    }
                } else {
                    if exists|k: int| 0 <= k < jobs0.len() && (#[trigger] jobs0[k]).job_id == j {
                        let k = choose|k: int|
                            0 <= k < jobs0.len() && (#[trigger] jobs0[k]).job_id == j;
                        assert(k != ji as int);
                        lemma_job_metrics_at(jobs0, k);
                        assert(jobs1[k] == jobs0[k]);
                        lemma_job_metrics_at(jobs1, k);
                    } else {
                        assert forall|k: int|
                            0 <= k < jobs1.len() implies (#[trigger] jobs1[k]).job_id != j by {
                            assert(jobs1[k].job_id == jobs0[k].job_id);
                        }
                        assert(job_metrics(jobs1, j) =~= Seq::<MetricModel>::empty());
                        assert(job_metrics(jobs0, j) =~= Seq::<MetricModel>::empty());
                    }
                }
            } else {
                if exists|gg: int| 0 <= gg < gs0.len() && (#[trigger] gs0[gg]).backend_name == b {
                    let gg = choose|gg: int|
                        0 <= gg < gs0.len() && (#[trigger] gs0[gg]).backend_name == b;
                    assert(gg != gi as int);
                    lemma_backend_jobs_at(gs0, gg);
                    assert(gs1[gg] == gs0[gg]);
                    lemma_backend_jobs_at(gs1, gg);
                } else {
                    assert forall|gg: int|
                        0 <= gg < gs1.len() implies (#[trigger] gs1[gg]).backend_name != b by {
                        assert(gs1[gg].backend_name == gs0[gg].backend_name);
                    }
                    assert(backend_jobs(gs1, b) =~= Seq::<JobRequestModel>::empty());
                    assert(backend_jobs(gs0, b) =~= Seq::<JobRequestModel>::empty());
                }
            }
        }
    }
}

/// Subscriptions in non-decreasing countdown order.
pub open spec fn sorted_by_countdown(s: Seq<MetricModel>) -> bool {
    forall|k1: int, k2: int|
        0 <= k1 <= k2 < s.len() ==> (#[trigger] s[k1]).time_remaining_before_next_measure <= (
        #[trigger] s[k2]).time_remaining_before_next_measure
}

impl BackendsManager {
    /// Sort the subscription list by remaining countdown, ascending; the
    /// list keeps exactly the same subscriptions.
    pub fn sort_waiting_metrics(&mut self)
        requires
            old(self).wf(),
        ensures
            final(self).wf(),
            final(self).catalog == old(self).catalog,
            final(self).last_timestamp == old(self).last_timestamp,
            final(self).sample_period == old(self).sample_period,
            final(self).last_measurement == old(self).last_measurement,
            final(self).metrics_modified == old(self).metrics_modified,
            final(self).metrics_to_get@.to_multiset() == old(self).metrics_to_get@.to_multiset(),
            final(self).metrics_to_get@.len() == old(self).metrics_to_get@.len(),
            sorted_by_countdown(final(self).metrics_to_get.deep_view()),
            forall|k: int|
                0 <= k < final(self).metrics_to_get@.len() ==> old(self).metrics_to_get@.contains(
                    #[trigger] final(self).metrics_to_get@[k],
                ),
    {
        let ghost orig_ms = self.metrics_to_get@.to_multiset();
        let ghost orig_len = self.metrics_to_get@.len();
        let mut out: Vec<Metric> = Vec::new();
        while self.metrics_to_get.len() > 0
            invariant
                self.wf(),
                old(self).wf(),
                self.catalog == old(self).catalog,
                self.last_timestamp == old(self).last_timestamp,
                self.sample_period == old(self).sample_period,
                self.last_measurement == old(self).last_measurement,
                self.metrics_modified == old(self).metrics_modified,
                orig_ms == old(self).metrics_to_get@.to_multiset(),
                orig_len == old(self).metrics_to_get@.len(),
                out@.len() + self.metrics_to_get@.len() == orig_len,
                out@.to_multiset().add(self.metrics_to_get@.to_multiset()) =~= orig_ms,
                sorted_by_countdown(out.deep_view()),
                forall|k: int| 0 <= k < out@.len() ==> metric_wf(#[trigger] out.deep_view()[k]),
                forall|k: int, l: int|
                    0 <= k < out@.len() && 0 <= l < self.metrics_to_get@.len() ==> (
                    #[trigger] out.deep_view()[k]).time_remaining_before_next_measure <= (
                    #[trigger] self.metrics_to_get.deep_view()[l]).time_remaining_before_next_measure,
                forall|k: int|
                    0 <= k < out@.len() ==> old(self).metrics_to_get@.contains(#[trigger] out@[k]),
            decreases self.metrics_to_get@.len(),
        {
            let mut mi: usize = 0;
            let mut q: usize = 1;
            while q < self.metrics_to_get.len()
                invariant
                    mi < q <= self.metrics_to_get@.len(),
                    self.metrics_to_get@.len() > 0,
                    forall|k: int|
                        0 <= k < q ==> (
                        #[trigger] self.metrics_to_get.deep_view()[mi as int]).time_remaining_before_next_measure
                            <= self.metrics_to_get.deep_view()[k].time_remaining_before_next_measure,
                decreases self.metrics_to_get@.len() - q,
            {
                if self.metrics_to_get[q].time_remaining_before_next_measure
                    < self.metrics_to_get[mi].time_remaining_before_next_measure {
                    mi = q;
                }
                proof {
                    assert(self.metrics_to_get.deep_view()[q as int] == self.metrics_to_get@[
                        q as int
                    ].deep_view());
                    assert(self.metrics_to_get.deep_view()[mi as int] == self.metrics_to_get@[
                        mi as int
                    ].deep_view());
                }
                q += 1;
            }
            let ghost rest_before = self.metrics_to_get@;
            let ghost dv_rest = self.metrics_to_get.deep_view();
            let ghost dv_out = out.deep_view();
            proof {
                assert forall|x: int| 0 <= x < rest_before.len() implies #[trigger] dv_rest[x]
                    == rest_before[x].deep_view() by {}
                assert forall|x: int| 0 <= x < out@.len() implies #[trigger] dv_out[x] == out@[
                    x
                ].deep_view() by {}
            }
            let m = self.metrics_to_get.remove(mi);
            let ghost out_before = out@;
            out.push(m);
            proof {
                assert(m == rest_before[mi as int]);
                assert(rest_before.contains(rest_before[mi as int]));
                assert(out@ == out_before.push(m));
                assert(out_before.push(m).to_multiset() =~= out_before.to_multiset().insert(m));
                assert(out@.to_multiset() =~= out_before.to_multiset().insert(m));
                assert(self.metrics_to_get@ == rest_before.remove(mi as int));
                assert(rest_before.remove(mi as int).to_multiset() =~= rest_before.to_multiset()
                    .remove(rest_before[mi as int]));
                assert(self.metrics_to_get@.to_multiset() =~= rest_before.to_multiset().remove(m));
                assert(out@.to_multiset().add(self.metrics_to_get@.to_multiset()) =~= orig_ms);
                assert forall|k: int|
                    0 <= k < out@.len() implies old(self).metrics_to_get@.contains(
                    #[trigger] out@[k]) by {
                    if k == out@.len() - 1 {
                        assert(orig_ms.count(m) > 0);
                        assert(old(self).metrics_to_get@.to_multiset().count(m) > 0);
                    } else {
                        assert(out@[k] == out_before[k]);
                    }
                }
                assert forall|k: int, l: int|
                    0 <= k < out@.len() && 0 <= l < self.metrics_to_get@.len() implies (
                #[trigger] out.deep_view()[k]).time_remaining_before_next_measure <= (
                #[trigger] self.metrics_to_get.deep_view()[l]).time_remaining_before_next_measure by {
                    assert(self.metrics_to_get.deep_view()[l] == self.metrics_to_get@[
                        l
                    ].deep_view());
                    let lo: int = if l < mi as int {
                        l
                    } else {
                        l + 1
                    };
                    assert(self.metrics_to_get@[l] == rest_before[lo]);
                    assert(self.metrics_to_get.deep_view()[l] == dv_rest[lo]);
                    assert(out.deep_view()[k] == out@[k].deep_view());
                    if k < out@.len() - 1 {
                        assert(out@[k] == out_before[k]);
                        assert(out.deep_view()[k] == dv_out[k]);
                        assert(dv_out[k].time_remaining_before_next_measure <= dv_rest[
                            lo
                        ].time_remaining_before_next_measure);
                    } else {
                        assert(out@[k] == m);
                        assert(out.deep_view()[k] == dv_rest[mi as int]);
                        assert(dv_rest[mi as int].time_remaining_before_next_measure <= dv_rest[
                            lo
                        ].time_remaining_before_next_measure);
                    }
                }
                assert forall|k1: int, k2: int|
                    0 <= k1 <= k2 < out.deep_view().len() implies (
                #[trigger] out.deep_view()[k1]).time_remaining_before_next_measure <= (
                #[trigger] out.deep_view()[k2]).time_remaining_before_next_measure by {
                    assert(out.deep_view()[k1] == out@[k1].deep_view());
                    assert(out.deep_view()[k2] == out@[k2].deep_view());
                    if k2 < out@.len() - 1 {
                        assert(out@[k1] == out_before[k1]);
                        assert(out@[k2] == out_before[k2]);
                        assert(out.deep_view()[k1] == dv_out[k1]);
                        assert(out.deep_view()[k2] == dv_out[k2]);
                    } else if k1 < out@.len() - 1 {
                        assert(out@[k1] == out_before[k1]);
                        assert(out.deep_view()[k1] == dv_out[k1]);
                        assert(out@[k2] == m);
                        assert(out.deep_view()[k2] == dv_rest[mi as int]);
                        assert(dv_out[k1].time_remaining_before_next_measure <= dv_rest[
                            mi as int
                        ].time_remaining_before_next_measure);
                    }
                }
                assert forall|k: int| 0 <= k < out@.len() implies metric_wf(
                    #[trigger] out.deep_view()[k],
                ) by {
                    assert(out.deep_view()[k] == out@[k].deep_view());
                    if k < out@.len() - 1 {
                        assert(out@[k] == out_before[k]);
                        assert(out.deep_view()[k] == dv_out[k]);
                        assert(metric_wf(dv_out[k]));
                    } else {
                        assert(out.deep_view()[k] == dv_rest[mi as int]);
                        assert(metric_wf(dv_rest[mi as int]));
                    }
                }
                assert forall|k: int|
                    0 <= k < self.metrics_to_get.deep_view().len() implies metric_wf(
                    #[trigger] self.metrics_to_get.deep_view()[k]) by {
                    assert(self.metrics_to_get.deep_view()[k] == self.metrics_to_get@[
                        k
                    ].deep_view());
                    let lo: int = if k < mi as int {
                        k
                    } else {
                        k + 1
                    };
                    assert(self.metrics_to_get@[k] == rest_before[lo]);
                    assert(self.metrics_to_get.deep_view()[k] == dv_rest[lo]);
                    assert(metric_wf(dv_rest[lo]));
                }
            }
        }
        self.metrics_to_get = out;
        proof {
            assert(Seq::<Metric>::empty().to_multiset() =~= Multiset::<Metric>::empty());
            assert(self.metrics_to_get@.to_multiset() =~= orig_ms);
        }
    }

    /// The delay, in nanoseconds, until the next tick is worth attempting:
    /// the smallest remaining countdown.  Sorts the subscription list by
    /// urgency as a side effect.
    pub fn get_sleep_time(&mut self) -> (r: u128)
        requires
            old(self).wf(),
            old(self).metrics_to_get@.len() > 0,
            forall|k: int|
                0 <= k < old(self).metrics_to_get.deep_view().len() ==> (#[trigger] old(
                    self,
                ).metrics_to_get.deep_view()[k]).time_remaining_before_next_measure > 0,
        ensures
            final(self).wf(),
            final(self).catalog == old(self).catalog,
            final(self).last_timestamp == old(self).last_timestamp,
            final(self).sample_period == old(self).sample_period,
            final(self).last_measurement == old(self).last_measurement,
            final(self).metrics_modified == old(self).metrics_modified,
            final(self).metrics_to_get@.to_multiset() == old(self).metrics_to_get@.to_multiset(),
            final(self).metrics_to_get@.len() == old(self).metrics_to_get@.len(),
            sorted_by_countdown(final(self).metrics_to_get.deep_view()),
            r == final(self).metrics_to_get.deep_view()[0].time_remaining_before_next_measure
                * 1000000,
            forall|k: int|
                0 <= k < final(self).metrics_to_get.deep_view().len() ==> r <= (#[trigger] final(self).metrics_to_get.deep_view()[k]).time_remaining_before_next_measure * 1000000,
            r > 0,
    {
        self.sort_waiting_metrics();
        proof {
            assert forall|k: int|
                0 <= k < self.metrics_to_get.deep_view().len() implies (
            #[trigger] self.metrics_to_get.deep_view()[k]).time_remaining_before_next_measure
                > 0 by {
                assert(self.metrics_to_get.deep_view()[k] == self.metrics_to_get@[k].deep_view());
                assert(old(self).metrics_to_get@.contains(self.metrics_to_get@[k]));
                let j = choose|j: int|
                    0 <= j < old(self).metrics_to_get@.len() && old(self).metrics_to_get@[j]
                        == self.metrics_to_get@[k];
                assert(old(self).metrics_to_get.deep_view()[j] == old(self).metrics_to_get@[
                    j
                ].deep_view());
            }
        }
        let c = self.metrics_to_get[0].time_remaining_before_next_measure;
        proof {
            assert(self.metrics_to_get.deep_view()[0] == self.metrics_to_get@[0].deep_view());
        }
        (c as u128) * 1000000
    }
}

/// Whether two observation bundles answer the same request: same backend,
/// same metric names in the same order.
pub open spec fn bundles_match(a: MetricValuesModel, b: MetricValuesModel) -> bool {
    a.backend_name == b.backend_name && a.metric_names == b.metric_names
}

/// `a` with its values replaced by those of `b`.
pub open spec fn replace_values(a: MetricValuesModel, b: MetricValuesModel) -> MetricValuesModel {
    MetricValuesModel { metric_values: b.metric_values, ..a }
}

/// Merging one bundle into a snapshot entry's bundle list: every bundle for
/// the same backend and metric names has its values replaced in place; when
/// none matches, the new bundle is appended.
pub open spec fn spec_update_measurement(s: Seq<MetricValuesModel>, x: MetricValuesModel) -> Seq<
    MetricValuesModel,
> {
    if exists|i: int| 0 <= i < s.len() && bundles_match(#[trigger] s[i], x) {
        Seq::new(
            s.len(),
            |i: int|
                if bundles_match(s[i], x) {
                    replace_values(s[i], x)
                } else {
                    s[i]
                },
        )
    } else {
        s.push(x)
    }
}

/// Merging an identical bundle twice into a snapshot entry yields the same
/// entry as merging it once: values are replaced, never duplicated.
pub proof fn lemma_update_measurement_idempotent(s: Seq<MetricValuesModel>, x: MetricValuesModel)
    ensures
        spec_update_measurement(spec_update_measurement(s, x), x) == spec_update_measurement(s, x),
{
    let s1 = spec_update_measurement(s, x);
    if exists|i: int| 0 <= i < s.len() && bundles_match(#[trigger] s[i], x) {
        let w = choose|i: int| 0 <= i < s.len() && bundles_match(#[trigger] s[i], x);
        assert(bundles_match(s1[w], x));
        assert(spec_update_measurement(s1, x) =~~= s1) by {
            assert forall|j: int| 0 <= j < s1.len() implies #[trigger] spec_update_measurement(
                s1,
                x,
            )[j] == s1[j] by {
                if bundles_match(s[j], x) {
                    assert(bundles_match(s1[j], x));
                    assert(replace_values(replace_values(s[j], x), x) =~= replace_values(
                        s[j],
                        x,
                    ));
                } else {
                    assert(s1[j] == s[j]);
                    assert(!bundles_match(s1[j], x));
                }
            }
        }
    } else {
        assert(s1 == s.push(x));
        assert(bundles_match(s1[s.len() as int], x));
        assert(spec_update_measurement(s1, x) =~~= s1) by {
            assert forall|j: int| 0 <= j < s1.len() implies #[trigger] spec_update_measurement(
                s1,
                x,
            )[j] == s1[j] by {
                if j < s.len() {
                    assert(s1[j] == s[j]);
                    assert(!bundles_match(s1[j], x));
                } else {
                    assert(s1[j] == x);
                    assert(replace_values(x, x) =~= x);
                }
            }
        }
    }
}

impl BackendsManager {
    /// Merge one observation bundle into a bundle list: bundles for the same
    /// backend and metric names get their values replaced; otherwise the
    /// bundle is appended.
    pub fn update_measurement(&self, m: Vec<MetricValues>, to_add: MetricValues) -> (r: Vec<
        MetricValues,
    >)
        ensures
            r.deep_view() == spec_update_measurement(m.deep_view(), to_add.deep_view()),
    {
        let ghost sm = m.deep_view();
        let ghost x = to_add.deep_view();
        let mut inserted = false;
        let mut metrics: Vec<MetricValues> = Vec::new();
        let mut i: usize = 0;
        while i < m.len()
            invariant
                i <= m@.len(),
                sm == m.deep_view(),
                x == to_add.deep_view(),
                metrics@.len() == i,
                inserted == exists|k: int| 0 <= k < i && bundles_match(#[trigger] sm[k], x),
                forall|k: int|
                    0 <= k < i ==> #[trigger] metrics.deep_view()[k] == (if bundles_match(
                        sm[k],
                        x,
                    ) {
                        replace_values(sm[k], x)
                    } else {
                        sm[k]
                    }),
            decreases m@.len() - i,
        {
            proof {
                assert(sm[i as int] == m@[i as int].deep_view());
            }
            let ghost mv0 = metrics@;
            let ghost mdv0 = metrics.deep_view();
            proof {
                assert forall|k: int| 0 <= k < mv0.len() implies #[trigger] mdv0[k] == mv0[
                    k
                ].deep_view() by {}
            }
            let measure = &m[i];
            if strings_equal(&measure.backend_name, &to_add.backend_name) && string_vecs_equal(
                &measure.metric_names,
                &to_add.metric_names,
            ) {
                let replaced = MetricValues {
                    job_id: measure.job_id,
                    backend_name: measure.backend_name.clone(),
                    metric_names: clone_strings(&measure.metric_names),
                    metric_values: clone_i64s(&to_add.metric_values),
                };
                proof {
                    assert(bundles_match(sm[i as int], x));
                    assert(replaced.deep_view() =~= replace_values(sm[i as int], x));
                }
                metrics.push(replaced);
                inserted = true;
            } else {
                proof {
                    assert(!bundles_match(sm[i as int], x));
                }
                metrics.push(m[i].clone());
            }
            proof {
                assert forall|k: int| 0 <= k <= i as int implies #[trigger] metrics.deep_view()[k]
                    == (if bundles_match(sm[k], x) {
                    replace_values(sm[k], x)
                } else {
                    sm[k]
                }) by {
                    assert(metrics.deep_view()[k] == metrics@[k].deep_view());
                    if k < i as int {
                        assert(metrics@[k] == mv0[k]);
                        assert(metrics.deep_view()[k] == mdv0[k]);
                    }
                }
            }
            i += 1;
        }
        if !inserted {
            proof {
                assert(!exists|k: int| 0 <= k < sm.len() && bundles_match(#[trigger] sm[k], x));
            }
            let ghost mv0 = metrics@;
            let ghost mdv0 = metrics.deep_view();
            proof {
                assert forall|k: int| 0 <= k < mv0.len() implies #[trigger] mdv0[k] == mv0[
                    k
                ].deep_view() by {}
            }
            metrics.push(to_add);
            proof {
                assert forall|k: int|
                    0 <= k < metrics.deep_view().len() implies #[trigger] metrics.deep_view()[k]
                    == sm.push(x)[k] by {
                    assert(metrics.deep_view()[k] == metrics@[k].deep_view());
                    if k < mv0.len() {
                        assert(metrics@[k] == mv0[k]);
                        assert(metrics.deep_view()[k] == mdv0[k]);
                    }
                }
                assert(metrics.deep_view() =~~= spec_update_measurement(sm, x));
            }
        } else {
            proof {
                assert(metrics.deep_view() =~~= spec_update_measurement(sm, x));
            }
        }
        metrics
    }
}

/// A subscription the engine can accept at configuration time: its metric
/// is in the catalog, and its period and countdown are in range (a period is
/// the sentinel or positive — a non-positive period is a configuration
/// error, rejected rather than guessed at).
pub open spec fn metric_acceptable(cat: &Catalog, m: MetricModel) -> bool {
    &&& cat.spec_lookup(m.metric_name) is Some
    &&& (m.sampling_period == USE_BASE_PERIOD as int || 0 < m.sampling_period
        <= MAX_PERIOD_MS as int)
    &&& -(MAX_PERIOD_MS as int) <= m.time_remaining_before_next_measure <= MAX_PERIOD_MS as int
}

/// A subscription as the engine stores it: backend resolved through the
/// catalog and period rounded onto the base grid (the sentinel stays).
pub open spec fn normalized_metric(cat: &Catalog, m: MetricModel, base: int) -> MetricModel {
    MetricModel {
        backend_name: match cat.spec_lookup(m.metric_name) {
            Some(p) => p.1,
            None => m.backend_name,
        },
        sampling_period: if m.sampling_period == USE_BASE_PERIOD as int {
            USE_BASE_PERIOD as int
        } else {
            rounded_period(base, m.sampling_period)
        },
        ..m
    }
}

/// Resolve each subscription's backend through the catalog and round its
/// period onto the base grid; `None` when some metric is not acceptable —
/// an unknown metric name is fatal, never guessed around.
fn normalize_metrics(catalog: &Catalog, base: i64, metrics: &Vec<Metric>) -> (r: Option<
    Vec<Metric>,
>)
    requires
        catalog.wf(),
        0 < base <= MAX_PERIOD_MS,
    ensures
        match r {
            Some(list) => {
                &&& forall|k: int|
                    0 <= k < metrics.deep_view().len() ==> metric_acceptable(
                        catalog,
                        #[trigger] metrics.deep_view()[k],
                    )
                &&& list.deep_view().len() == metrics.deep_view().len()
                &&& forall|k: int|
                    0 <= k < list.deep_view().len() ==> #[trigger] list.deep_view()[k]
                        == normalized_metric(catalog, metrics.deep_view()[k], base as int)
                &&& forall|k: int|
                    0 <= k < list.deep_view().len() ==> metric_wf(#[trigger] list.deep_view()[k])
            },
            None => exists|k: int|
                0 <= k < metrics.deep_view().len() && !metric_acceptable(
                    catalog,
                    #[trigger] metrics.deep_view()[k],
                ),
        },
{
    let mut out: Vec<Metric> = Vec::new();
    let mut i: usize = 0;
    while i < metrics.len()
        invariant
            i <= metrics@.len(),
            catalog.wf(),
            0 < base <= MAX_PERIOD_MS,
            out@.len() == i,
            forall|k: int|
                0 <= k < i ==> metric_acceptable(catalog, #[trigger] metrics.deep_view()[k]),
            forall|k: int|
                0 <= k < i ==> #[trigger] out.deep_view()[k] == normalized_metric(
                    catalog,
                    metrics.deep_view()[k],
                    base as int,
                ),
            forall|k: int| 0 <= k < i ==> metric_wf(#[trigger] out.deep_view()[k]),
        decreases metrics@.len() - i,
    {
        proof {
            assert(metrics.deep_view()[i as int] == metrics@[i as int].deep_view());
        }
        let m = &metrics[i];
        let backend = match catalog.lookup(&m.metric_name) {
            None => {
                return None;
            },
            Some((_id, backend)) => backend,
        };
        if m.time_remaining_before_next_measure < -MAX_PERIOD_MS
            || m.time_remaining_before_next_measure > MAX_PERIOD_MS {
            return None;
        }
        let period = if m.sampling_period == USE_BASE_PERIOD {
            USE_BASE_PERIOD
        } else {
            if m.sampling_period <= 0 || m.sampling_period > MAX_PERIOD_MS {
                return None;
            }
            round_sampling(base, m.sampling_period)
        };
        let ghost mdv0 = out.deep_view();
        let ghost mv0 = out@;
        out.push(
            Metric {
                job_id: m.job_id,
                metric_name: m.metric_name.clone(),
                backend_name: backend,
                sampling_period: period,
                time_remaining_before_next_measure: m.time_remaining_before_next_measure,
            },
        );
        proof {
            assert forall|k: int| 0 <= k <= i as int implies #[trigger] out.deep_view()[k]
                == normalized_metric(catalog, metrics.deep_view()[k], base as int) by {
                assert(out.deep_view()[k] == out@[k].deep_view());
                if k < i as int {
                    assert(out@[k] == mv0[k]);
                    assert(out.deep_view()[k] == mdv0[k]);
                }
            }
            assert forall|k: int| 0 <= k <= i as int implies metric_wf(
                #[trigger] out.deep_view()[k],
            ) by {
                assert(out.deep_view()[k] == out@[k].deep_view());
                if k < i as int {
                    assert(out@[k] == mv0[k]);
                    assert(out.deep_view()[k] == mdv0[k]);
                }
            }
        }
        i += 1;
    }
    Some(out)
}

impl BackendsManager {
    /// A fresh engine: subscriptions normalized against `sample_period`
    /// (milliseconds), an empty snapshot, no tick taken yet.  `None` when a
    /// subscription names an unknown metric or an out-of-range period — a
    /// configuration error the caller must treat as fatal.
    pub fn new(sample_period: i64, metrics: Vec<Metric>, catalog: Catalog) -> (r: Option<
        BackendsManager,
    >)
        requires
            0 < sample_period <= MAX_PERIOD_MS,
            catalog.wf(),
        ensures
            match r {
                Some(mgr) => {
                    &&& mgr.wf()
                    &&& mgr.catalog == catalog
                    &&& mgr.sample_period == sample_period
                    &&& mgr.last_timestamp == 0
                    &&& mgr.metrics_modified == false
                    &&& mgr.last_measurement@ == Seq::<SnapshotEntry>::empty()
                    &&& forall|k: int|
                        0 <= k < metrics.deep_view().len() ==> metric_acceptable(
                            &catalog,
                            #[trigger] metrics.deep_view()[k],
                        )
                    &&& mgr.metrics_to_get.deep_view().len() == metrics.deep_view().len()
                    &&& forall|k: int|
                        0 <= k < metrics.deep_view().len() ==> #[trigger] mgr.metrics_to_get.deep_view()[k]
                            == normalized_metric(
                            &catalog,
                            metrics.deep_view()[k],
                            sample_period as int,
                        )
                },
                None => exists|k: int|
                    0 <= k < metrics.deep_view().len() && !metric_acceptable(
                        &catalog,
                        #[trigger] metrics.deep_view()[k],
                    ),
            },
    {
        let list = match normalize_metrics(&catalog, sample_period, &metrics) {
            None => {
                return None;
            },
            Some(list) => list,
        };
        let mgr = BackendsManager {
            catalog,
            metrics_to_get: list,
            last_timestamp: 0,
            sample_period,
            last_measurement: Vec::new(),
            metrics_modified: false,
        };
        proof {
            assert(mgr.last_measurement@ =~= Seq::<SnapshotEntry>::empty());
        }
        Some(mgr)
    }

    /// Reconfiguration: atomically replace the base period and the whole
    /// subscription list (re-normalized against the new base) and mark the
    /// snapshot stale, so the next tick discards it.  On a rejected
    /// configuration (unknown metric, out-of-range period) nothing changes.
    pub fn update_metrics_to_get(&mut self, n_period: i64, n_metrics: &Vec<Metric>) -> (ok: bool)
        requires
            old(self).wf(),
            0 < n_period <= MAX_PERIOD_MS,
        ensures
            final(self).wf(),
            final(self).catalog == old(self).catalog,
            ({
                if ok {
                    &&& forall|k: int|
                        0 <= k < n_metrics.deep_view().len() ==> metric_acceptable(
                            &old(self).catalog,
                            #[trigger] n_metrics.deep_view()[k],
                        )
                    &&& final(self).sample_period == n_period
                    &&& final(self).metrics_modified == true
                    &&& final(self).last_measurement == old(self).last_measurement
                    &&& final(self).last_timestamp == old(self).last_timestamp
                    &&& final(self).metrics_to_get.deep_view().len()
                        == n_metrics.deep_view().len()
                    &&& forall|k: int|
                        0 <= k < n_metrics.deep_view().len() ==> #[trigger] final(self).metrics_to_get.deep_view()[k]
                            == normalized_metric(
                            &old(self).catalog,
                            n_metrics.deep_view()[k],
                            n_period as int,
                        )
                } else {
                    &&& *final(self) == *old(self)
                    &&& (exists|k: int|
                        0 <= k < n_metrics.deep_view().len() && !metric_acceptable(
                            &old(self).catalog,
                            #[trigger] n_metrics.deep_view()[k],
                        ))
                }
            }),
    {
        let list = match normalize_metrics(&self.catalog, n_period, n_metrics) {
            None => {
                return false;
            },
            Some(list) => list,
        };
        self.sample_period = n_period;
        self.metrics_to_get = list;
        self.metrics_modified = true;
        true
    }

    /// One scheduler tick.  Discards the snapshot if a reconfiguration
    /// happened since the last tick; treats the first tick as zero elapsed
    /// time; subtracts the elapsed time from every countdown; and returns
    /// the due subscriptions grouped per backend and per job, or `None`
    /// when nothing came due — callers must not assume every tick produces
    /// work.
    pub fn make_measure(&mut self, timestamp: i64) -> (due: Option<Vec<BackendRequest>>)
        requires
            old(self).wf(),
            old(self).last_timestamp <= timestamp <= MAX_TIMESTAMP_MS,
        ensures
            final(self).wf(),
            final(self).catalog == old(self).catalog,
            final(self).sample_period == old(self).sample_period,
            final(self).last_timestamp == timestamp,
            !final(self).metrics_modified,
            final(self).last_measurement@ == (if old(self).metrics_modified {
                Seq::<SnapshotEntry>::empty()
            } else {
                old(self).last_measurement@
            }),
            ({
                let delta: int = if old(self).last_timestamp == 0 {
                    0
                } else {
                    timestamp - old(self).last_timestamp
                };
                let oldm = old(self).metrics_to_get.deep_view();
                let base = old(self).sample_period as int;
                &&& final(self).metrics_to_get.deep_view().len() == oldm.len()
                &&& forall|k: int|
                    0 <= k < oldm.len() ==> #[trigger] final(self).metrics_to_get.deep_view()[k]
                        == ticked_metric(oldm[k], delta, base)
                &&& forall|k: int|
                    0 <= k < oldm.len() ==> (#[trigger] final(self).metrics_to_get.deep_view()[k]).time_remaining_before_next_measure
                        > 0
                &&& match due {
                    Some(groups) => {
                        &&& groups_wf(groups.deep_view())
                        &&& forall|b: Seq<char>, j: int| #[trigger]
                            metrics_for(groups.deep_view(), b, j) == due_selection(
                                oldm,
                                delta,
                                b,
                                j,
                            )
                        &&& due_count(oldm, delta) > 0
                        &&& groups@.len() > 0
                    },
                    None => due_count(oldm, delta) == 0,
                }
            }),
    {
        if self.metrics_modified {
            self.last_measurement = Vec::new();
            self.metrics_modified = false;
            proof {
                assert(self.last_measurement@ =~= Seq::<SnapshotEntry>::empty());
            }
        }
        if self.last_timestamp == 0 {
            self.last_timestamp = timestamp;
        }
        let delta_t = timestamp - self.last_timestamp;
        self.last_timestamp = timestamp;
        let list = self.get_metrics_to_collect_now(delta_t);
        proof {
            lemma_due_count_nonneg(old(self).metrics_to_get.deep_view(), delta_t as int);
        }
        if list.len() == 0 {
            None
        } else {
            Some(list)
        }
    }
}

/// The catalog-compressed image of a bundle's metric names: each name
/// replaced by its catalog id, written in decimal.
pub open spec fn compressed_names(cat: &Catalog, names: Seq<Seq<char>>) -> Seq<Seq<char>> {
    Seq::new(names.len(), |i: int| id_digits(cat, names[i]))
}

/// A bundle as it enters the snapshot: names compressed to catalog ids,
/// everything else kept.
pub open spec fn compressed_bundle(cat: &Catalog, v: MetricValuesModel) -> MetricValuesModel {
    MetricValuesModel { metric_names: compressed_names(cat, v.metric_names), ..v }
}

impl BackendsManager {
    /// Merge one returned observation bundle into the snapshot entry of
    /// `job_id`: metric names are compressed to catalog ids; an existing
    /// entry keeps its hostname, timestamp and version and has the bundle
    /// merged into its list; an absent entry is created stamped with the
    /// given hostname and timestamp and the catalog version.  Returns false
    /// — and changes nothing — when a metric name is unknown to the
    /// catalog, which the caller must treat as fatal.
    pub fn merge_measure(
        &mut self,
        job_id: i32,
        values: MetricValues,
        hostname: &String,
        timestamp: i64,
    ) -> (ok: bool)
        requires
            old(self).wf(),
            values@.wf(),
        ensures
            final(self).wf(),
            final(self).catalog == old(self).catalog,
            final(self).metrics_to_get == old(self).metrics_to_get,
            final(self).sample_period == old(self).sample_period,
            final(self).last_timestamp == old(self).last_timestamp,
            final(self).metrics_modified == old(self).metrics_modified,
            ok == (forall|i: int|
                0 <= i < values@.metric_names.len() ==> old(self).catalog.spec_lookup(
                    #[trigger] values@.metric_names[i],
                ) is Some),
            !ok ==> final(self).last_measurement == old(self).last_measurement,
            ok ==> ({
                let oldsnap = old(self).last_measurement.deep_view();
                let newsnap = final(self).last_measurement.deep_view();
                let cm = compressed_bundle(&old(self).catalog, values@);
                if exists|k: int|
                    0 <= k < oldsnap.len() && (#[trigger] oldsnap[k]).job_id == job_id as int {
                    &&& newsnap.len() == oldsnap.len()
                    &&& forall|k: int|
                        0 <= k < oldsnap.len() ==> #[trigger] newsnap[k] == (if oldsnap[k].job_id
                            == job_id as int {
                            SnapshotEntryModel {
                                measures: spec_update_measurement(oldsnap[k].measures, cm),
                                ..oldsnap[k]
                            }
                        } else {
                            oldsnap[k]
                        })
                } else {
                    newsnap == oldsnap.push(
                        SnapshotEntryModel {
                            job_id: job_id as int,
                            hostname: hostname@,
                            timestamp: timestamp as int,
                            version: old(self).catalog.version as int,
                            measures: seq![cm],
                        },
                    )
                }
            }),
    {
        let ghost vmodel = values@;
        let compressed = match compress_metric_names(&self.catalog, &values.metric_names) {
            None => {
                return false;
            },
            Some(c) => c,
        };
        let nb = MetricValues {
            job_id: values.job_id,
            backend_name: values.backend_name,
            metric_names: compressed,
            metric_values: values.metric_values,
        };
        let ghost cm = compressed_bundle(&self.catalog, vmodel);
        proof {
            assert(nb.deep_view().metric_names =~~= compressed_names(
                &self.catalog,
                vmodel.metric_names,
            ));
            assert(nb.deep_view() =~~= cm);
            assert(cm.wf());
        }
        let ghost snap0 = self.last_measurement.deep_view();
        let ghost sv0 = self.last_measurement@;
        proof {
            assert forall|k: int| 0 <= k < sv0.len() implies #[trigger] snap0[k] == sv0[
                k
            ].deep_view() by {}
        }
        let mut i: usize = 0;
        while i < self.last_measurement.len()
            invariant
                i <= sv0.len(),
                self.wf(),
                *self == *old(self),
                snap0 == self.last_measurement.deep_view(),
                sv0 == self.last_measurement@,
                vmodel == values@,
                cm == compressed_bundle(&old(self).catalog, vmodel),
                cm.wf(),
                nb.deep_view() == cm,
                forall|q: int|
                    0 <= q < vmodel.metric_names.len() ==> old(self).catalog.spec_lookup(
                        #[trigger] vmodel.metric_names[q],
                    ) is Some,
                forall|k: int| 0 <= k < i ==> (#[trigger] snap0[k]).job_id != job_id as int,
            decreases sv0.len() - i,
        {
            proof {
                assert(snap0[i as int] == sv0[i as int].deep_view());
            }
            if self.last_measurement[i].job_id == job_id {
                let e = self.last_measurement.remove(i);
                let ghost emodel = e.deep_view();
                let merged = self.update_measurement(e.measures, nb);
                let ne = SnapshotEntry {
                    job_id: e.job_id,
                    hostname: e.hostname,
                    timestamp: e.timestamp,
                    version: e.version,
                    measures: merged,
                };
                proof {
                    assert(emodel == snap0[i as int]);
                    assert(merged.deep_view() == spec_update_measurement(
                        emodel.measures,
                        nb.deep_view(),
                    ));
                    assert(nb.deep_view() == cm);
                    assert(merged.deep_view() == spec_update_measurement(emodel.measures, cm));
                    assert(ne.deep_view().measures == merged.deep_view());
                    assert(ne.deep_view() =~~= (SnapshotEntryModel {
                        measures: spec_update_measurement(emodel.measures, cm),
                        ..emodel
                    }));
                }
                self.last_measurement.insert(i, ne);
                proof {
                    let newsnap = self.last_measurement.deep_view();
                    assert(self.last_measurement@ =~= sv0.update(i as int, ne));
                    assert forall|k: int| 0 <= k < sv0.len() implies #[trigger] newsnap[k] == (if k
                        == i as int {
                        ne.deep_view()
                    } else {
                        snap0[k]
                    }) by {
                        assert(newsnap[k] == self.last_measurement@[k].deep_view());
                        if k != i as int {
                            assert(self.last_measurement@[k] == sv0[k]);
                        }
                    }
                    // The merged bundle list keeps every bundle aligned.
                    assert forall|k: int, b: int|
                        0 <= k < self.last_measurement@.len() && 0 <= b
                            < self.last_measurement@[k].measures.deep_view().len() implies (
                    #[trigger] self.last_measurement@[k].measures.deep_view()[b]).wf() by {
                        assert(self.last_measurement@[k].measures.deep_view()
                            == newsnap[k].measures);
                        if k == i as int {
                            let su = spec_update_measurement(emodel.measures, cm);
                            assert(newsnap[k].measures == su);
                            if exists|q: int|
                                0 <= q < emodel.measures.len() && bundles_match(
                                    #[trigger] emodel.measures[q],
                                    cm,
                                ) {
                                assert(su[b] == (if bundles_match(emodel.measures[b], cm) {
                                    replace_values(emodel.measures[b], cm)
                                } else {
                                    emodel.measures[b]
                                }));
                                assert((old(self).last_measurement@[i as int].measures.deep_view()[
                                    b
                                ]).wf());
                                assert(emodel.measures[b] == old(self).last_measurement@[
                                    i as int
                                ].measures.deep_view()[b]);
                            } else {
                                if b < emodel.measures.len() {
                                    assert(su[b] == emodel.measures[b]);
                                    assert((old(self).last_measurement@[
                                        i as int
                                    ].measures.deep_view()[b]).wf());
                                    assert(emodel.measures[b] == old(self).last_measurement@[
                                        i as int
                                    ].measures.deep_view()[b]);
                                } else {
                                    assert(su[b] == cm);
                                }
                            }
                        } else {
                            assert(newsnap[k] == snap0[k]);
                            assert((old(self).last_measurement@[k].measures.deep_view()[b]).wf());
                            assert(snap0[k].measures[b] == old(self).last_measurement@[
                                k
                            ].measures.deep_view()[b]);
                        }
                    }
                    assert forall|k1: int, k2: int|
                        0 <= k1 < k2 < self.last_measurement@.len() implies (
                    #[trigger] self.last_measurement@[k1]).job_id != (
                    #[trigger] self.last_measurement@[k2]).job_id by {
                        assert(self.last_measurement@[k1].deep_view() == newsnap[k1]);
                        assert(self.last_measurement@[k2].deep_view() == newsnap[k2]);
                        assert(sv0[k1].deep_view() == snap0[k1]);
                        assert(sv0[k2].deep_view() == snap0[k2]);
                    }
                }
                return true;
            }
            i += 1;
        }
        let mut ms: Vec<MetricValues> = Vec::new();
        ms.push(nb);
        let ne = SnapshotEntry {
            job_id,
            hostname: hostname.clone(),
            timestamp,
            version: self.catalog.version,
            measures: ms,
        };
        proof {
            assert(ne.deep_view().measures =~~= seq![cm]);
        }
        self.last_measurement.push(ne);
        proof {
            let newsnap = self.last_measurement.deep_view();
            assert forall|k: int| 0 <= k < sv0.len() + 1 implies #[trigger] newsnap[k] == (if k
                < sv0.len() {
                snap0[k]
            } else {
                ne.deep_view()
            }) by {
                assert(newsnap[k] == self.last_measurement@[k].deep_view());
                if k < sv0.len() {
                    assert(self.last_measurement@[k] == sv0[k]);
                }
            }
            assert(newsnap =~~= snap0.push(
                SnapshotEntryModel {
                    job_id: job_id as int,
                    hostname: hostname@,
                    timestamp: timestamp as int,
                    version: old(self).catalog.version as int,
                    measures: seq![cm],
                },
            ));
            assert(!(exists|k: int|
                0 <= k < snap0.len() && (#[trigger] snap0[k]).job_id == job_id as int));
            assert forall|k1: int, k2: int|
                0 <= k1 < k2 < self.last_measurement@.len() implies (
            #[trigger] self.last_measurement@[k1]).job_id != (
            #[trigger] self.last_measurement@[k2]).job_id by {
                if k2 < sv0.len() {
                    assert(self.last_measurement@[k1] == sv0[k1]);
                    assert(self.last_measurement@[k2] == sv0[k2]);
                } else {
                    assert(self.last_measurement@[k1] == sv0[k1]);
                    assert(sv0[k1].deep_view() == snap0[k1]);
                }
            }
            assert forall|k: int, b: int|
                0 <= k < self.last_measurement@.len() && 0 <= b
                    < self.last_measurement@[k].measures.deep_view().len() implies (
            #[trigger] self.last_measurement@[k].measures.deep_view()[b]).wf() by {
                if k < sv0.len() {
                    assert(self.last_measurement@[k] == sv0[k]);
                    assert(sv0[k].measures.deep_view()[b].wf());
                } else {
                    assert(self.last_measurement@[k] == ne);
                    assert(ne.deep_view().measures[b] == cm);
                }
            }
        }
        true
    }
}

} // verus!
