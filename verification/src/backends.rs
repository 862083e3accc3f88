//! The three metric backends and what is common to them.
//!
//! A backend resolves a set of requested metrics for a set of jobs into
//! concrete values.  The CPU and Memory backends project a plain-text stats
//! file; the hardware-counter backend reads a native counter API.  There is
//! no inheritance between them: the shared steps — expanding the wildcard
//! job id against the currently known jobs, and bundling names and values
//! into an aligned observation — are free functions, and the process around
//! the library performs the file reads and the native calls, handing the
//! results back as plain values.

use vstd::prelude::*;

use crate::cgroup_manager::CgroupEntry;
use crate::metric::Metric;
use crate::metric::MetricModel;
use crate::metric::MetricValues;
use crate::metric::MetricValuesModel;
use crate::metric::WILDCARD_JOB_ID;
use crate::scheduler::JobRequest;
use crate::scheduler::JobRequestModel;
use crate::scheduler::job_metrics;
use crate::scheduler::lemma_job_metrics_at;
use crate::stats::get_metric_values;
use crate::stats::metric_value_of;
use crate::stats::stats_rows;
use crate::stats::value_fits_i64;
use vstd::string::StrSliceExecFns;
use vstd::string::StringExecFns;

verus! {

/// The work one backend owes one concrete job in one dispatch: the job, its
/// cgroup directory name, and the metrics to read.
pub struct JobCollection {
    pub job_id: i32,
    pub cgroup_name: String,
    pub metrics: Vec<Metric>,
}

/// Mathematical image of a `JobCollection`.
#[verifier::ext_equal]
pub struct JobCollectionModel {
    pub job_id: int,
    pub cgroup_name: Seq<char>,
    pub metrics: Seq<MetricModel>,
}

impl View for JobCollection {
    type V = JobCollectionModel;

    open spec fn view(&self) -> JobCollectionModel {
        JobCollectionModel {
            job_id: self.job_id as int,
            cgroup_name: self.cgroup_name@,
            metrics: self.metrics.deep_view(),
        }
    }
}

impl DeepView for JobCollection {
    type V = JobCollectionModel;

    open spec fn deep_view(&self) -> JobCollectionModel {
        self.view()
    }
}

/// What one concrete job is owed: the metrics requested for it by id, then
/// those requested for all jobs.
pub open spec fn requested_metrics_for(jobs: Seq<JobRequestModel>, id: int) -> Seq<MetricModel> {
    job_metrics(jobs, id) + job_metrics(jobs, WILDCARD_JOB_ID as int)
}

/// The per-job work a backend's request list expands to against the known
/// jobs: one item per known job with at least one metric to read, in job
/// table order.  A job requested explicitly but no longer known is dropped.
pub open spec fn expanded_collections(jobs: Seq<JobRequestModel>, cgroups: Seq<CgroupEntry>) -> Seq<
    JobCollectionModel,
>
    decreases cgroups.len(),
{
    if cgroups.len() == 0 {
        Seq::empty()
    } else {
        let rest = expanded_collections(jobs, cgroups.drop_last());
        let e = cgroups.last();
        let ms = requested_metrics_for(jobs, e.job_id as int);
        if ms.len() > 0 {
            rest.push(
                JobCollectionModel {
                    job_id: e.job_id as int,
                    cgroup_name: e.cgroup_name@,
                    metrics: ms,
                },
            )
        } else {
            rest
        }
    }
}

/// Element-wise copy of a metric list.
pub fn clone_metrics(v: &Vec<Metric>) -> (r: Vec<Metric>)
    ensures
        r@ == v@,
{
    let mut r: Vec<Metric> = Vec::new();
    let mut i: usize = 0;
    while i < v.len()
        invariant
            i <= v@.len(),
            r@ == v@.take(i as int),
        decreases v@.len() - i,
    {
        r.push(v[i].clone());
        proof {
            assert(r@ =~= v@.take(i as int + 1));
        }
        i += 1;
    }
    proof {
        assert(v@.take(v@.len() as int) =~= v@);
    }
    r
}

/// The metrics of the request entry for `id`, or none.
fn find_job_metrics(jobs: &Vec<JobRequest>, id: i32) -> (r: Vec<Metric>)
    requires
        forall|i1: int, i2: int|
            0 <= i1 < i2 < jobs.deep_view().len() ==> (#[trigger] jobs.deep_view()[i1]).job_id != (
            #[trigger] jobs.deep_view()[i2]).job_id,
    ensures
        r.deep_view() == job_metrics(jobs.deep_view(), id as int),
{
    let ghost js = jobs.deep_view();
    let mut i: usize = 0;
    while i < jobs.len()
        invariant
            i <= jobs@.len(),
            js == jobs.deep_view(),
            js.len() == jobs@.len(),
            forall|i1: int, i2: int|
                0 <= i1 < i2 < js.len() ==> (#[trigger] js[i1]).job_id != (
                #[trigger] js[i2]).job_id,
            forall|k: int| 0 <= k < i ==> (#[trigger] js[k]).job_id != id as int,
        decreases jobs@.len() - i,
    {
        proof {
            assert(js[i as int] == jobs@[i as int].deep_view());
        }
        if jobs[i].job_id == id {
            let r = clone_metrics(&jobs[i].metrics);
            proof {
                lemma_job_metrics_at(js, i as int);
                assert(r.deep_view() =~= jobs@[i as int].metrics.deep_view());
            }
            return r;
        }
        i += 1;
    }
    proof {
        assert(!(exists|k: int| 0 <= k < js.len() && (#[trigger] js[k]).job_id == id as int));
        assert(job_metrics(js, id as int) =~= Seq::<MetricModel>::empty());
    }
    Vec::new()
}

/// Expand a backend's per-job request list against the currently known
/// jobs: each known job receives the metrics requested for it explicitly,
/// followed by those requested under the wildcard job id; jobs left with no
/// metrics produce no work.
pub fn expand_job_requests(jobs: &Vec<JobRequest>, cgroups: &Vec<CgroupEntry>) -> (r: Vec<
    JobCollection,
>)
    requires
        forall|i1: int, i2: int|
            0 <= i1 < i2 < jobs.deep_view().len() ==> (#[trigger] jobs.deep_view()[i1]).job_id != (
            #[trigger] jobs.deep_view()[i2]).job_id,
    ensures
        r.deep_view() == expanded_collections(jobs.deep_view(), cgroups@),
{
    let ghost js = jobs.deep_view();
    let mut out: Vec<JobCollection> = Vec::new();
    let mut ci: usize = 0;
    while ci < cgroups.len()
        invariant
            ci <= cgroups@.len(),
            js == jobs.deep_view(),
            forall|i1: int, i2: int|
                0 <= i1 < i2 < js.len() ==> (#[trigger] js[i1]).job_id != (
                #[trigger] js[i2]).job_id,
            out.deep_view() == expanded_collections(js, cgroups@.take(ci as int)),
        decreases cgroups@.len() - ci,
    {
        proof {
            assert(cgroups@.take(ci as int + 1).drop_last() =~= cgroups@.take(ci as int));
            assert(cgroups@.take(ci as int + 1).last() == cgroups@[ci as int]);
        }
        let id = cgroups[ci].job_id;
        let mut ms = find_job_metrics(jobs, id);
        let mut wild = find_job_metrics(jobs, WILDCARD_JOB_ID);
        let ghost ms0 = ms.deep_view();
        let ghost wild0 = wild.deep_view();
        ms.append(&mut wild);
        proof {
            assert(ms.deep_view() =~~= requested_metrics_for(js, id as int));
        }
        if ms.len() > 0 {
            let item = JobCollection {
                job_id: id,
                cgroup_name: cgroups[ci].cgroup_name.clone(),
                metrics: ms,
            };
            let ghost out0 = out.deep_view();
            out.push(item);
            proof {
                assert(out.deep_view() =~~= out0.push(item.deep_view()));
                assert(item.deep_view() =~~= (JobCollectionModel {
                    job_id: id as int,
                    cgroup_name: cgroups@[ci as int].cgroup_name@,
                    metrics: requested_metrics_for(js, id as int),
                }));
                assert(out.deep_view() =~~= expanded_collections(
                    js,
                    cgroups@.take(ci as int + 1),
                ));
            }
        } else {
            proof {
                assert(requested_metrics_for(js, id as int).len() == 0);
                assert(out.deep_view() =~~= expanded_collections(
                    js,
                    cgroups@.take(ci as int + 1),
                ));
            }
        }
        ci += 1;
    }
    proof {
        assert(cgroups@.take(cgroups@.len() as int) =~= cgroups@);
    }
    out
}

/// The names of a metric list, in order.
pub open spec fn metric_names_of(ms: Seq<MetricModel>) -> Seq<Seq<char>> {
    ms.map_values(|m: MetricModel| m.metric_name)
}

/// Bundle one job's requested names with the values read for them,
/// positionally aligned.
pub fn bundle_values(backend_name: &String, job_id: i32, metrics: &Vec<Metric>, values: Vec<
    i64,
>) -> (r: MetricValues)
    requires
        values@.len() == metrics.deep_view().len(),
    ensures
        r@ == (MetricValuesModel {
            job_id: job_id as int,
            backend_name: backend_name@,
            metric_names: metric_names_of(metrics.deep_view()),
            metric_values: values@,
        }),
        r@.wf(),
{
    let mut names: Vec<String> = Vec::new();
    let mut i: usize = 0;
    while i < metrics.len()
        invariant
            i <= metrics@.len(),
            names@.len() == i,
            forall|k: int|
                0 <= k < i ==> (#[trigger] names@[k])@ == metrics.deep_view()[k].metric_name,
        decreases metrics@.len() - i,
    {
        proof {
            assert(metrics.deep_view()[i as int] == metrics@[i as int].deep_view());
        }
        names.push(metrics[i].metric_name.clone());
        i += 1;
    }
    let r = MetricValues {
        job_id,
        backend_name: backend_name.clone(),
        metric_names: names,
        metric_values: values,
    };
    proof {
        assert(r@.metric_names =~~= metric_names_of(metrics.deep_view()));
        assert(r@ =~~= (MetricValuesModel {
            job_id: job_id as int,
            backend_name: backend_name@,
            metric_names: metric_names_of(metrics.deep_view()),
            metric_values: values@,
        }));
    }
    r
}

/// Project one job's requested metrics out of a stats file and bundle them,
/// as the CPU and Memory backends do; `None` when the file cannot serve the
/// request.
pub fn stats_return_values(backend_name: &String, jc: &JobCollection, content: &str) -> (r: Option<
    MetricValues,
>)
    ensures
        match stats_rows(content@) {
            None => r is None,
            Some(rows) => match r {
                Some(mv) => {
                    &&& mv@.wf()
                    &&& mv@.job_id == jc.job_id as int
                    &&& mv@.backend_name == backend_name@
                    &&& mv@.metric_names == metric_names_of(jc.metrics.deep_view())
                    &&& mv@.metric_values.len() == jc.metrics.deep_view().len()
                    &&& forall|q: int|
                        0 <= q < mv@.metric_values.len() ==> metric_value_of(
                            rows,
                            (#[trigger] jc.metrics.deep_view()[q]).metric_name,
                        ) == Some(mv@.metric_values[q] as int)
                },
                None => exists|q: int|
                    0 <= q < jc.metrics.deep_view().len() && !value_fits_i64(
                        metric_value_of(
                            rows,
                            (#[trigger] jc.metrics.deep_view()[q]).metric_name,
                        ),
                    ),
            },
        },
{
    match get_metric_values(content, &jc.metrics) {
        None => None,
        Some(vals) => Some(bundle_values(backend_name, jc.job_id, &jc.metrics, vals)),
    }
}

/// The backend that projects each job's `cpu.stat` file.
pub struct CpuBackend {
    pub backend_name: String,
}

impl CpuBackend {
    pub fn new() -> (r: CpuBackend)
        ensures
            r.backend_name@ == "cpu"@,
    {
        CpuBackend { backend_name: String::from_str("cpu") }
    }

    pub fn get_backend_name(&self) -> (r: String)
        ensures
            r@ == self.backend_name@,
    {
        self.backend_name.clone()
    }

    /// One job's observation bundle, given the content of its `cpu.stat`.
    pub fn return_values(&self, jc: &JobCollection, content: &str) -> (r: Option<MetricValues>)
        ensures
            match r {
                Some(mv) => {
                    &&& stats_rows(content@) is Some
                    &&& mv@.wf()
                    &&& mv@.job_id == jc.job_id as int
                    &&& mv@.backend_name == self.backend_name@
                    &&& mv@.metric_names == metric_names_of(jc.metrics.deep_view())
                    &&& mv@.metric_values.len() == jc.metrics.deep_view().len()
                    &&& forall|q: int|
                        0 <= q < mv@.metric_values.len() ==> metric_value_of(
                            stats_rows(content@).unwrap(),
                            (#[trigger] jc.metrics.deep_view()[q]).metric_name,
                        ) == Some(mv@.metric_values[q] as int)
                },
                None => stats_rows(content@) is None || (exists|q: int|
                    0 <= q < jc.metrics.deep_view().len() && !value_fits_i64(
                        metric_value_of(
                            stats_rows(content@).unwrap(),
                            (#[trigger] jc.metrics.deep_view()[q]).metric_name,
                        ),
                    )),
            },
    {
        stats_return_values(&self.backend_name, jc, content)
    }
}

/// The backend that projects each job's `memory.stat` file.
pub struct MemoryBackend {
    pub backend_name: String,
}

impl MemoryBackend {
    pub fn new() -> (r: MemoryBackend)
        ensures
            r.backend_name@ == "memory"@,
    {
        MemoryBackend { backend_name: String::from_str("memory") }
    }

    pub fn get_backend_name(&self) -> (r: String)
        ensures
            r@ == self.backend_name@,
    {
        self.backend_name.clone()
    }

    /// One job's observation bundle, given the content of its `memory.stat`.
    pub fn return_values(&self, jc: &JobCollection, content: &str) -> (r: Option<MetricValues>)
        ensures
            match r {
                Some(mv) => {
                    &&& stats_rows(content@) is Some
                    &&& mv@.wf()
                    &&& mv@.job_id == jc.job_id as int
                    &&& mv@.backend_name == self.backend_name@
                    &&& mv@.metric_names == metric_names_of(jc.metrics.deep_view())
                    &&& mv@.metric_values.len() == jc.metrics.deep_view().len()
                    &&& forall|q: int|
                        0 <= q < mv@.metric_values.len() ==> metric_value_of(
                            stats_rows(content@).unwrap(),
                            (#[trigger] jc.metrics.deep_view()[q]).metric_name,
                        ) == Some(mv@.metric_values[q] as int)
                },
                None => stats_rows(content@) is None || (exists|q: int|
                    0 <= q < jc.metrics.deep_view().len() && !value_fits_i64(
                        metric_value_of(
                            stats_rows(content@).unwrap(),
                            (#[trigger] jc.metrics.deep_view()[q]).metric_name,
                        ),
                    )),
            },
    {
        stats_return_values(&self.backend_name, jc, content)
    }
}

/// The argument strings the native counter API takes: the cgroup path and
/// the space-led metric-name list, each terminated by a NUL byte.
pub open spec fn perfhw_cgroup_arg(name: Seq<char>) -> Seq<char> {
    seq!['/', 'o', 'a', 'r', '/'] + name + seq!['\u{0}']
}

pub open spec fn perfhw_names_arg(names: Seq<Seq<char>>) -> Seq<char>
    decreases names.len(),
{
    if names.len() == 0 {
        seq!['\u{0}']
    } else {
        let rest = perfhw_names_arg(names.drop_last());
        rest.drop_last() + seq![' '] + names.last() + seq!['\u{0}']
    }
}

/// The backend that reads hardware performance counters through the native
/// counter API.
pub struct PerfhwBackend {
    pub backend_name: String,
}

impl PerfhwBackend {
    pub fn new() -> (r: PerfhwBackend)
        ensures
            r.backend_name@ == "Perfhw"@,
    {
        PerfhwBackend { backend_name: String::from_str("Perfhw") }
    }

    pub fn get_backend_name(&self) -> (r: String)
        ensures
            r@ == self.backend_name@,
    {
        self.backend_name.clone()
    }

    /// The two NUL-terminated strings the native counter API is handed for
    /// one job: its cgroup path and the requested metric names.
    pub fn request_strings(&self, jc: &JobCollection) -> (r: (String, String))
        ensures
            r.0@ == perfhw_cgroup_arg(jc.cgroup_name@),
            r.1@ == perfhw_names_arg(metric_names_of(jc.metrics.deep_view())),
    {
        let mut path = String::new();
        path.append("/oar/");
        path.append(jc.cgroup_name.as_str());
        path.append("\u{0}");
        proof {
            reveal_strlit("/oar/");
            reveal_strlit("\u{0}");
            assert(path@ =~= perfhw_cgroup_arg(jc.cgroup_name@));
        }
        let ghost names = metric_names_of(jc.metrics.deep_view());
        let mut arg = String::new();
        let mut i: usize = 0;
        while i < jc.metrics.len()
            invariant
                i <= jc.metrics@.len(),
                names == metric_names_of(jc.metrics.deep_view()),
                names.len() == jc.metrics@.len(),
                arg@ == perfhw_names_arg(names.take(i as int)).drop_last(),
            decreases jc.metrics@.len() - i,
        {
            proof {
                assert(names.take(i as int + 1).drop_last() =~= names.take(i as int));
                assert(names.take(i as int + 1).last() == names[i as int]);
                assert(names[i as int] == jc.metrics@[i as int].deep_view().metric_name);
            }
            arg.append(" ");
            arg.append(jc.metrics[i].metric_name.as_str());
            proof {
                reveal_strlit(" ");
                assert(arg@ =~= perfhw_names_arg(names.take(i as int + 1)).drop_last());
            }
            i += 1;
        }
        arg.append("\u{0}");
        proof {
            reveal_strlit("\u{0}");
            assert(names.take(names.len() as int) =~= names);
            assert(arg@ =~= perfhw_names_arg(names));
        }
        (path, arg)
    }

    /// One job's observation bundle, given the counter values the native
    /// API wrote — one 64-bit value per requested metric, in request order.
    pub fn return_values(&self, jc: &JobCollection, counter_values: Vec<i64>) -> (r: MetricValues)
        requires
            counter_values@.len() == jc.metrics.deep_view().len(),
        ensures
            r@ == (MetricValuesModel {
                job_id: jc.job_id as int,
                backend_name: self.backend_name@,
                metric_names: metric_names_of(jc.metrics.deep_view()),
                metric_values: counter_values@,
            }),
            r@.wf(),
    {
        bundle_values(&self.backend_name, jc.job_id, &jc.metrics, counter_values)
    }
}

} // verus!
