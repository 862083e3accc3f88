//! The two value types that flow through the engine: a standing collection
//! request (`Metric`) and an observation bundle (`MetricValues`).
//!
//! All periods and countdowns are integer milliseconds.  A `job_id` of
//! `WILDCARD_JOB_ID` stands for "all currently known jobs"; a
//! `sampling_period` of `USE_BASE_PERIOD` stands for "use the engine's base
//! period".

use vstd::prelude::*;

verus! {

/// Job-id sentinel meaning "all currently known jobs".
pub const WILDCARD_JOB_ID: i32 = -1;

/// Sampling-period sentinel meaning "use the engine's base period".
pub const USE_BASE_PERIOD: i64 = -1;

/// One standing request to collect `metric_name` for one job (or all jobs)
/// every `sampling_period` milliseconds.
pub struct Metric {
    pub job_id: i32,
    pub metric_name: String,
    pub backend_name: String,
    /// Milliseconds between measures, or `USE_BASE_PERIOD`.
    pub sampling_period: i64,
    /// Countdown until the next measure, in milliseconds.
    pub time_remaining_before_next_measure: i64,
}

/// Mathematical image of a `Metric`.
#[verifier::ext_equal]
pub struct MetricModel {
    pub job_id: int,
    pub metric_name: Seq<char>,
    pub backend_name: Seq<char>,
    pub sampling_period: int,
    pub time_remaining_before_next_measure: int,
}

impl View for Metric {
    type V = MetricModel;

    open spec fn view(&self) -> MetricModel {
        MetricModel {
            job_id: self.job_id as int,
            metric_name: self.metric_name@,
            backend_name: self.backend_name@,
            sampling_period: self.sampling_period as int,
            time_remaining_before_next_measure: self.time_remaining_before_next_measure as int,
        }
    }
}

impl DeepView for Metric {
    type V = MetricModel;

    open spec fn deep_view(&self) -> MetricModel {
        self.view()
    }
}

impl Clone for Metric {
    fn clone(&self) -> (res: Self)
        ensures
            res == *self,
    {
        Metric {
            job_id: self.job_id,
            metric_name: self.metric_name.clone(),
            backend_name: self.backend_name.clone(),
            sampling_period: self.sampling_period,
            time_remaining_before_next_measure: self.time_remaining_before_next_measure,
        }
    }
}

/// One observation bundle produced by a backend for one job.  `metric_names`
/// and `metric_values` are positionally aligned; `wf` states that invariant.
pub struct MetricValues {
    pub job_id: i32,
    pub backend_name: String,
    pub metric_names: Vec<String>,
    pub metric_values: Vec<i64>,
}

/// Mathematical image of a `MetricValues` bundle.
#[verifier::ext_equal]
pub struct MetricValuesModel {
    pub job_id: int,
    pub backend_name: Seq<char>,
    pub metric_names: Seq<Seq<char>>,
    pub metric_values: Seq<i64>,
}

impl MetricValuesModel {
    /// Names and values are positionally aligned.
    pub open spec fn wf(&self) -> bool {
        self.metric_names.len() == self.metric_values.len()
    }
}

impl View for MetricValues {
    type V = MetricValuesModel;

    open spec fn view(&self) -> MetricValuesModel {
        MetricValuesModel {
            job_id: self.job_id as int,
            backend_name: self.backend_name@,
            metric_names: self.metric_names.deep_view(),
            metric_values: self.metric_values@,
        }
    }
}

impl DeepView for MetricValues {
    type V = MetricValuesModel;

    open spec fn deep_view(&self) -> MetricValuesModel {
        self.view()
    }
}

impl Clone for MetricValues {
    fn clone(&self) -> (res: Self)
        ensures
            res@ == self@,
    {
        let res = MetricValues {
            job_id: self.job_id,
            backend_name: self.backend_name.clone(),
            metric_names: clone_strings(&self.metric_names),
            metric_values: clone_i64s(&self.metric_values),
        };
        proof {
            assert(res@ =~= self@);
        }
        res
    }
}

/// Element-wise copy of a vector of strings; unlike a derived clone, its
/// contract carries the contents across.
pub fn clone_strings(v: &Vec<String>) -> (res: Vec<String>)
    ensures
        res.deep_view() == v.deep_view(),
        res@.len() == v@.len(),
{
    let mut res: Vec<String> = Vec::new();
    let mut i: usize = 0;
    while i < v.len()
        invariant
            i <= v.len(),
            res@.len() == i,
            forall|j: int| 0 <= j < i ==> res@[j] == v@[j],
        decreases v.len() - i,
    {
        res.push(v[i].clone());
        i += 1;
    }
    proof {
        assert(res.deep_view() =~= v.deep_view());
    }
    res
}

/// Element-wise copy of a vector of 64-bit values.
pub fn clone_i64s(v: &Vec<i64>) -> (res: Vec<i64>)
    ensures
        res@ == v@,
{
    let mut res: Vec<i64> = Vec::new();
    let mut i: usize = 0;
    while i < v.len()
        invariant
            i <= v.len(),
            res@ == v@.subrange(0, i as int),
        decreases v.len() - i,
    {
        res.push(v[i]);
        i += 1;
    }
    proof {
        assert(res@ =~= v@);
    }
    res
}

/// Whether two strings hold the same characters.
pub fn strings_equal(a: &String, b: &String) -> (r: bool)
    ensures
        r == (a@ == b@),
{
    a.eq(b)
}

/// Whether two string vectors hold the same sequences, position by position.
pub fn string_vecs_equal(a: &Vec<String>, b: &Vec<String>) -> (r: bool)
    ensures
        r == (a.deep_view() == b.deep_view()),
{
    if a.len() != b.len() {
        proof {
            assert(a.deep_view().len() == a@.len());
            assert(b.deep_view().len() == b@.len());
        }
        return false;
    }
    let mut i: usize = 0;
    while i < a.len()
        invariant
            a@.len() == b@.len(),
            i <= a@.len(),
            forall|j: int| 0 <= j < i ==> a@[j]@ == b@[j]@,
        decreases a.len() - i,
    {
        if !a[i].eq(&b[i]) {
            proof {
                assert(a.deep_view()[i as int] == a@[i as int]@);
                assert(b.deep_view()[i as int] == b@[i as int]@);
            }
            return false;
        }
        i += 1;
    }
    proof {
        assert(a.deep_view() =~~= b.deep_view());
    }
    true
}

} // verus!
