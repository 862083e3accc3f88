//! The job table: which jobs currently have a cgroup on this node.
//!
//! A background watcher (outside this library) observes the cgroup directory
//! and reports created and deleted directory names; the table itself, the
//! job-id extraction from a directory name, and the insert/remove operations
//! live here and are verified.  The table is a mapping from job id to cgroup
//! name; readers take a copy and must not assume it stays valid.

use vstd::prelude::*;

use vstd::pervasive::VecAdditionalExecFns;

verus! {

/// One row of the job table.
pub struct CgroupEntry {
    pub job_id: i32,
    pub cgroup_name: String,
}

impl Clone for CgroupEntry {
    fn clone(&self) -> (res: Self)
        ensures
            res == *self,
    {
        CgroupEntry { job_id: self.job_id, cgroup_name: self.cgroup_name.clone() }
    }
}

/// The job table, plus the configuration needed to interpret cgroup
/// directory names and build per-job stats paths.
pub struct CgroupManager {
    pub cgroup_root_path: String,
    pub cgroup_path_suffix: String,
    /// The tracked jobs; one row per job id.
    pub cgroups: Vec<CgroupEntry>,
    /// The configured pattern that a job's cgroup directory name matches.
    pub regex_job_id: String,
}

impl CgroupManager {
    /// Each job id appears in at most one row.
    pub open spec fn wf(&self) -> bool {
        forall|k1: int, k2: int|
            0 <= k1 < k2 < self.rows().len() ==> self.rows()[k1].job_id != self.rows()[k2].job_id
    }

    /// The rows of the table.
    pub open spec fn rows(&self) -> Seq<CgroupEntry> {
        self.cgroups@
    }

    /// Whether some row holds `id`.
    pub open spec fn has_job(&self, id: int) -> bool {
        exists|k: int| 0 <= k < self.rows().len() && (#[trigger] self.rows()[k]).job_id == id
    }

    /// The table as a mapping from job id to cgroup name.
    pub open spec fn jobs(&self) -> Map<int, Seq<char>> {
        Map::new(
            |id: int| self.has_job(id),
            |id: int|
                {
                    let k = choose|k: int|
                        0 <= k < self.rows().len() && (#[trigger] self.rows()[k]).job_id == id;
                    self.rows()[k].cgroup_name@
                },
        )
    }

    /// An empty table for a node with the given cgroup layout and job-id
    /// pattern.  The caller starts the directory watch and feeds
    /// `add_cgroup`/`remove_cgroup` from it.
    pub fn new(regex_job_id: String, cgroup_root_path: String, cgroup_path_suffix: String) -> (r:
        CgroupManager)
        ensures
            r.wf(),
            r.jobs() == Map::<int, Seq<char>>::empty(),
            r.cgroup_root_path == cgroup_root_path,
            r.cgroup_path_suffix == cgroup_path_suffix,
            r.regex_job_id == regex_job_id,
    {
        let r = CgroupManager {
            cgroup_root_path,
            cgroup_path_suffix,
            cgroups: Vec::new(),
            regex_job_id,
        };
        proof {
            assert(r.jobs() =~= Map::<int, Seq<char>>::empty());
        }
        r
    }

    /// Insert a job, replacing the name if the id is already tracked.
    pub fn add_cgroup(&mut self, id: i32, name: String)
        requires
            old(self).wf(),
        ensures
            final(self).wf(),
            final(self).jobs() == old(self).jobs().insert(id as int, name@),
            final(self).cgroup_root_path == old(self).cgroup_root_path,
            final(self).cgroup_path_suffix == old(self).cgroup_path_suffix,
            final(self).regex_job_id == old(self).regex_job_id,
    {
        let mut i: usize = 0;
        while i < self.cgroups.len()
            invariant
                i <= self.rows().len(),
                self.wf(),
                *self == *old(self),
                forall|k: int| 0 <= k < i ==> (#[trigger] self.rows()[k]).job_id != id,
            decreases self.rows().len() - i,
        {
            if self.cgroups[i].job_id == id {
                let ghost old_rows = self.rows();
                self.cgroups.set(i, CgroupEntry { job_id: id, cgroup_name: name });
                proof {
                    assert forall|j: int| self.has_job(j) == (old(self).has_job(j) || j
                        == id as int) by {
                        if old(self).has_job(j) {
                            let k = choose|k: int|
                                0 <= k < old_rows.len() && (#[trigger] old_rows[k]).job_id == j;
                            assert(self.rows()[k].job_id == j);
                        }
                        if self.has_job(j) {
                            let k = choose|k: int|
                                0 <= k < self.rows().len() && (#[trigger] self.rows()[k]).job_id == j;
                            if k != i as int {
                                assert(old_rows[k].job_id == j);
                            }
                        }
                        if j == id as int {
                            assert(self.rows()[i as int].job_id == id as int);
                        }
                    }
                    assert forall|j: int| #[trigger]
                        self.has_job(j) && j != id as int implies self.jobs()[j]
                        == old(self).jobs()[j] by {
                        let k = choose|k: int|
                            0 <= k < self.rows().len() && (#[trigger] self.rows()[k]).job_id == j;
                        let k2 = choose|k2: int|
                            0 <= k2 < old_rows.len() && (#[trigger] old_rows[k2]).job_id == j;
                        assert(k != i as int);
                        assert(self.rows()[k] == old_rows[k]);
                        assert(k == k2);
                    }
                    assert(self.has_job(id as int) && self.jobs()[id as int]
                        == name@) by {
                        assert(self.rows()[i as int].job_id == id as int);
                        let k = choose|k: int|
                            0 <= k < self.rows().len() && (#[trigger] self.rows()[k]).job_id == id as int;
                        assert(k == i as int);
                    }
                    assert(self.jobs() =~= old(self).jobs().insert(id as int, name@));
                }
                return ;
            }
            i += 1;
        }
        let ghost old_rows = self.rows();
        self.cgroups.push(CgroupEntry { job_id: id, cgroup_name: name });
        proof {
            assert forall|j: int| self.has_job(j) == (old(self).has_job(j) || j
                == id as int) by {
                if old(self).has_job(j) {
                    let k = choose|k: int|
                        0 <= k < old_rows.len() && (#[trigger] old_rows[k]).job_id == j;
                    assert(self.rows()[k].job_id == j);
                }
                if self.has_job(j) {
                    let k = choose|k: int|
                        0 <= k < self.rows().len() && (#[trigger] self.rows()[k]).job_id == j;
                    if k < old_rows.len() {
                        assert(old_rows[k].job_id == j);
                    }
                }
                if j == id as int {
                    assert(self.rows()[old_rows.len() as int].job_id == id as int);
                }
            }
            assert forall|j: int| #[trigger] self.has_job(j) && j != id as int implies self.jobs()[j] == old(self).jobs()[j] by {
                let k = choose|k: int|
                    0 <= k < self.rows().len() && (#[trigger] self.rows()[k]).job_id
                        == j;
                let k2 = choose|k2: int|
                    0 <= k2 < old_rows.len() && (#[trigger] old_rows[k2]).job_id == j;
                assert(k < old_rows.len());
                assert(k == k2);
            }
            assert(self.has_job(id as int) && self.jobs()[id as int] == name@) by {
                assert(self.rows()[old_rows.len() as int].job_id == id as int);
                let k = choose|k: int|
                    0 <= k < self.rows().len() && (#[trigger] self.rows()[k]).job_id
                        == id as int;
                if k < old_rows.len() {
                    assert(forall|j: int|
                        0 <= j < old_rows.len() ==> (#[trigger] old_rows[j]).job_id
                            != id as int);
                }
            }
            assert(self.jobs() =~= old(self).jobs().insert(id as int, name@));
        }
    }

    /// Remove a job, if tracked; removing an unknown id leaves the table
    /// unchanged.
    pub fn remove_cgroup(&mut self, id: i32)
        requires
            old(self).wf(),
        ensures
            final(self).wf(),
            final(self).jobs() == old(self).jobs().remove(id as int),
            final(self).cgroup_root_path == old(self).cgroup_root_path,
            final(self).cgroup_path_suffix == old(self).cgroup_path_suffix,
            final(self).regex_job_id == old(self).regex_job_id,
    {
        let mut i: usize = 0;
        while i < self.cgroups.len()
            invariant
                i <= self.rows().len(),
                self.wf(),
                *self == *old(self),
                forall|k: int| 0 <= k < i ==> (#[trigger] self.rows()[k]).job_id != id,
            decreases self.rows().len() - i,
        {
            if self.cgroups[i].job_id == id {
                let ghost old_rows = self.rows();
                self.cgroups.remove(i);
                proof {
                    assert forall|j: int| self.has_job(j) == (old(self).has_job(j) && j
                        != id as int) by {
                        if old(self).has_job(j) && j != id as int {
                            let k = choose|k: int|
                                0 <= k < old_rows.len() && (#[trigger] old_rows[k]).job_id == j;
                            if k < i as int {
                                assert(self.rows()[k].job_id == j);
                            } else {
                                assert(k > i as int);
                                assert(self.rows()[k - 1].job_id == j);
                            }
                        }
                        if self.has_job(j) {
                            let k = choose|k: int|
                                0 <= k < self.rows().len() && (#[trigger] self.rows()[k]).job_id == j;
                            if k < i as int {
                                assert(old_rows[k].job_id == j);
                            } else {
                                assert(old_rows[k + 1].job_id == j);
                                assert(k + 1 != i as int);
                            }
                        }
                    }
                    assert forall|j: int| #[trigger] self.has_job(j) implies self.jobs()[j] == old(self).jobs()[j] by {
                        let k = choose|k: int|
                            0 <= k < self.rows().len() && (#[trigger] self.rows()[k]).job_id == j;
                        let k2 = choose|k2: int|
                            0 <= k2 < old_rows.len() && (#[trigger] old_rows[k2]).job_id == j;
                        if k < i as int {
                            assert(old_rows[k].job_id == j);
                            assert(k == k2);
                            assert(self.rows()[k] == old_rows[k2]);
                        } else {
                            assert(old_rows[k + 1].job_id == j);
                            assert(k + 1 == k2);
                            assert(self.rows()[k] == old_rows[k2]);
                        }
                    }
                    assert(self.jobs() =~= old(self).jobs().remove(id as int));
                }
                return ;
            }
            i += 1;
        }
        proof {
            assert(!old(self).has_job(id as int));
            assert(self.jobs() =~= old(self).jobs().remove(id as int));
        }
    }

    /// A copy of the current table; the live table may change as soon as the
    /// call returns.
    pub fn get_cgroups(&self) -> (r: Vec<CgroupEntry>)
        ensures
            r@ == self.rows(),
    {
        let mut r: Vec<CgroupEntry> = Vec::new();
        let mut i: usize = 0;
        while i < self.cgroups.len()
            invariant
                i <= self.rows().len(),
                r@ == self.rows().take(i as int),
            decreases self.rows().len() - i,
        {
            r.push(self.cgroups[i].clone());
            proof {
                assert(r@ =~= self.rows().take(i as int + 1));
            }
            i += 1;
        }
        proof {
            assert(self.rows().take(self.rows().len() as int) =~= self.rows());
        }
        r
    }
}

/// Whether `b` is an ASCII decimal digit.
pub open spec fn is_ascii_digit_byte(b: u8) -> bool {
    48 <= b <= 57
}

/// The value of a string of ASCII digits, most significant first.
pub open spec fn digits_value_bytes(s: Seq<u8>) -> int
    decreases s.len(),
{
    if s.len() == 0 {
        0
    } else {
        digits_value_bytes(s.drop_last()) * 10 + (s.last() - 48)
    }
}

pub open spec fn all_ascii_digits(s: Seq<u8>) -> bool {
    forall|i: int| 0 <= i < s.len() ==> is_ascii_digit_byte(#[trigger] s[i])
}

/// The integer a byte string denotes in decimal — an optional sign followed
/// by at least one digit — or `None` when it is not of that form.
pub open spec fn decimal_value_bytes(s: Seq<u8>) -> Option<int> {
    if s.len() > 0 && (s[0] == 45 || s[0] == 43) {
        if s.len() > 1 && all_ascii_digits(s.drop_first()) {
            if s[0] == 45 {
                Some(-digits_value_bytes(s.drop_first()))
            } else {
                Some(digits_value_bytes(s.drop_first()))
            }
        } else {
            None
        }
    } else if s.len() > 0 && all_ascii_digits(s) {
        Some(digits_value_bytes(s))
    } else {
        None
    }
}

pub proof fn lemma_digits_value_nonneg(s: Seq<u8>)
    requires
        all_ascii_digits(s),
    ensures
        digits_value_bytes(s) >= 0,
    decreases s.len(),
{
    if s.len() > 0 {
        assert(all_ascii_digits(s.drop_last()));
        lemma_digits_value_nonneg(s.drop_last());
    }
}

/// A longer digit prefix never denotes a smaller value.
pub proof fn lemma_digits_take_mono(s: Seq<u8>, i: int, j: int)
    requires
        all_ascii_digits(s),
        0 <= i <= j <= s.len(),
    ensures
        digits_value_bytes(s.take(i)) <= digits_value_bytes(s.take(j)),
    decreases j - i,
{
    if i < j {
        lemma_digits_take_mono(s, i, j - 1);
        assert(s.take(j).drop_last() =~= s.take(j - 1));
        assert(all_ascii_digits(s.take(j - 1)));
        lemma_digits_value_nonneg(s.take(j - 1));
        assert(s.take(j).last() == s[j - 1]);
    }
}

/// Parse `v[from..to]` as a decimal 32-bit integer, as the job-id digits of
/// a cgroup directory name are parsed: `Some` exactly when the bytes denote
/// an integer that fits.
pub fn parse_i32_bytes(v: &Vec<u8>, from: usize, to: usize) -> (r: Option<i32>)
    requires
        from <= to <= v@.len(),
    ensures
        ({
            let text = v@.subrange(from as int, to as int);
            match decimal_value_bytes(text) {
                Some(val) => (i32::MIN <= val <= i32::MAX ==> r == Some(val as i32)) && (!(
                i32::MIN <= val <= i32::MAX) ==> r is None),
                None => r is None,
            }
        }),
{
    let ghost text = v@.subrange(from as int, to as int);
    if from == to {
        return None;
    }
    let first = v[from];
    let neg = first == 45;
    let skip: usize = if first == 45 || first == 43 {
        1
    } else {
        0
    };
    let start = from + skip;
    if start == to {
        // A sign with no digits, or (without a sign) nothing: not a number.
        proof {
            if skip == 0 {
                assert(!is_ascii_digit_byte(text[0]));
            }
        }
        return None;
    }
    let ghost digits = v@.subrange(start as int, to as int);
    proof {
        if skip == 1 {
            assert(text.drop_first() =~= digits);
        } else {
            assert(text =~= digits);
        }
    }
    let mut acc: u64 = 0;
    let mut i = start;
    while i < to
        invariant
            from <= start <= i <= to <= v@.len(),
            start < to,
            text == v@.subrange(from as int, to as int),
            digits == v@.subrange(start as int, to as int),
            text.len() > 0,
            skip == 0 || skip == 1,
            skip == 1 ==> (text[0] == 45 || text[0] == 43) && text.drop_first() == digits,
            skip == 0 ==> !(text[0] == 45 || text[0] == 43) && text == digits,
            neg == (text[0] == 45),
            all_ascii_digits(digits.take(i - start)),
            acc == digits_value_bytes(digits.take(i - start)),
            acc <= 0x8000_0000,
        decreases to - i,
    {
        let b = v[i];
        if b < 48 || b > 57 {
            proof {
                assert(digits[i - start] == b);
                assert(!all_ascii_digits(digits));
            }
            return None;
        }
        proof {
            assert(digits.take(i - start + 1).drop_last() =~= digits.take((i - start) as int));
            assert(digits.take(i - start + 1).last() == b);
        }
        acc = acc * 10 + ((b - 48) as u64);
        i += 1;
        if acc > 0x8000_0000 {
            proof {
                if all_ascii_digits(digits) {
                    lemma_digits_take_mono(digits, i - start, digits.len() as int);
                    assert(digits.take(digits.len() as int) =~= digits);
                }
            }
            return None;
        }
    }
    proof {
        assert(digits.take((to - start) as int) =~= digits);
    }
    if neg {
        if acc == 0x8000_0000 {
            Some(i32::MIN)
        } else {
            Some(-(acc as i32))
        }
    } else {
        if acc > 0x7fff_ffff {
            None
        } else {
            Some(acc as i32)
        }
    }
}

/// The byte span of the leftmost match of the configured job-id pattern in a
/// cgroup directory name, `None` when the pattern does not compile or does
/// not match.  The span is a function of the pattern and the name alone.
pub uninterp spec fn job_pattern_span(pattern: Seq<char>, name: Seq<u8>) -> Option<(int, int)>;

/// Relies on `regex::bytes::Regex::new` and `regex::bytes::Regex::find`:
/// both are deterministic in their inputs, and a returned match is a byte
/// range lying inside the haystack.
#[verifier::external_body]
fn find_job_pattern(pattern: &str, name: &Vec<u8>) -> (r: Option<(usize, usize)>)
    ensures
        match r {
            Some(span) => job_pattern_span(pattern@, name@) == Some((span.0 as int, span.1 as int))
                && span.0 <= span.1 <= name@.len(),
            None => job_pattern_span(pattern@, name@) is None,
        },
{
    match regex::bytes::Regex::new(pattern) {
        Ok(re) => re.find(name.as_slice()).map(|m| (m.start(), m.end())),
        Err(_) => None,
    }
}

/// The job id a cgroup directory name carries: the digits after the first
/// character of the pattern match, or `None` when the pattern does not match
/// or no integer follows.
pub open spec fn spec_job_id_of_name(pattern: Seq<char>, name: Seq<u8>) -> Option<int> {
    match job_pattern_span(pattern, name) {
        None => None,
        Some(span) => {
            if 0 <= span.0 && span.0 + 1 <= span.1 <= name.len() {
                decimal_value_bytes(name.subrange(span.0 + 1, span.1))
            } else {
                None
            }
        },
    }
}

/// Extract the numeric job id from a cgroup directory name using the
/// configured pattern: the character at the match's start is a separator and
/// is skipped, the rest of the match is read as a decimal integer.
pub fn extract_job_id(pattern: &str, name: &Vec<u8>) -> (r: Option<i32>)
    ensures
        match spec_job_id_of_name(pattern@, name@) {
            Some(val) => (i32::MIN <= val <= i32::MAX ==> r == Some(val as i32)) && (!(i32::MIN
                <= val <= i32::MAX) ==> r is None),
            None => r is None,
        },
{
    match find_job_pattern(pattern, name) {
        None => None,
        Some((s, e)) => {
            if s < e {
                parse_i32_bytes(name, s + 1, e)
            } else {
                None
            }
        },
    }
}

} // verus!
