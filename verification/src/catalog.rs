//! The metric catalog: a versioned, immutable mapping from metric name to a
//! compact integer id and the owning backend's name.
//!
//! The catalog is loaded once at startup from a packaged definition (a list
//! of backends, each with its ordered metric names) and is used both to route
//! a subscription to the backend that can serve it and to compress outgoing
//! metric names to small integers.  Ids are assigned sequentially in
//! definition order, so the receiving side can rebuild the same table.

use vstd::prelude::*;

use crate::metric::clone_strings;

verus! {

/// One backend of the packaged catalog definition, with its ordered metric
/// names.
pub struct BackendGroup {
    pub backend_name: String,
    pub metric_names: Vec<String>,
}

/// Mathematical image of a `BackendGroup`.
#[verifier::ext_equal]
pub struct BackendGroupModel {
    pub backend_name: Seq<char>,
    pub metric_names: Seq<Seq<char>>,
}

impl View for BackendGroup {
    type V = BackendGroupModel;

    open spec fn view(&self) -> BackendGroupModel {
        BackendGroupModel {
            backend_name: self.backend_name@,
            metric_names: self.metric_names.deep_view(),
        }
    }
}

impl DeepView for BackendGroup {
    type V = BackendGroupModel;

    open spec fn deep_view(&self) -> BackendGroupModel {
        self.view()
    }
}

/// The `(metric name, backend name)` pairs of one group, in order.
pub open spec fn group_pairs(g: BackendGroupModel) -> Seq<(Seq<char>, Seq<char>)> {
    g.metric_names.map_values(|n: Seq<char>| (n, g.backend_name))
}

/// All `(metric name, backend name)` pairs of a definition, in definition
/// order; the position of a pair is the id its metric receives.
pub open spec fn flattened_groups(groups: Seq<BackendGroupModel>) -> Seq<(Seq<char>, Seq<char>)>
    decreases groups.len(),
{
    if groups.len() == 0 {
        Seq::empty()
    } else {
        group_pairs(groups[0]) + flattened_groups(groups.drop_first())
    }
}

/// Flattening distributes over appending one group at the end.
pub proof fn lemma_flattened_push(s: Seq<BackendGroupModel>, g: BackendGroupModel)
    ensures
        flattened_groups(s.push(g)) == flattened_groups(s) + group_pairs(g),
    decreases s.len(),
{
    if s.len() == 0 {
        assert(s.push(g)[0] == g);
        assert(s.push(g).drop_first() =~= Seq::<BackendGroupModel>::empty());
        assert(group_pairs(g) + flattened_groups(Seq::<BackendGroupModel>::empty()) =~= group_pairs(
            g,
        ));
        assert(flattened_groups(s) + group_pairs(g) =~= group_pairs(g));
    } else {
        assert(s.push(g).drop_first() =~= s.drop_first().push(g));
        lemma_flattened_push(s.drop_first(), g);
        assert(s.push(g)[0] == s[0]);
        assert(group_pairs(s[0]) + (flattened_groups(s.drop_first()) + group_pairs(g)) =~= (
        group_pairs(s[0]) + flattened_groups(s.drop_first())) + group_pairs(g));
    }
}

pub proof fn lemma_flattened_groups_take_step(groups: Seq<BackendGroupModel>, i: int)
    requires
        0 <= i < groups.len(),
    ensures
        flattened_groups(groups.take(i + 1)) == flattened_groups(groups.take(i)) + group_pairs(
            groups[i],
        ),
{
    assert(groups.take(i + 1) =~= groups.take(i).push(groups[i]));
    lemma_flattened_push(groups.take(i), groups[i]);
}

/// One catalog row: a metric name, its compact id, and the backend that owns
/// it.
pub struct CatalogEntry {
    pub metric_name: String,
    pub metric_id: i32,
    pub backend_name: String,
}

/// The loaded catalog.
pub struct Catalog {
    pub version: i64,
    pub entries: Vec<CatalogEntry>,
}

impl Catalog {
    /// Row `k` holds id `k`, and metric names are pairwise distinct, so the
    /// catalog is a mapping.
    pub open spec fn wf(&self) -> bool {
        &&& forall|k: int|
            0 <= k < self.entries@.len() ==> (#[trigger] self.entries@[k]).metric_id == k
        &&& forall|k1: int, k2: int|
            0 <= k1 < k2 < self.entries@.len() ==> self.entries@[k1].metric_name@
                != self.entries@[k2].metric_name@
    }

    /// What name/backend pair row `k` holds.
    pub open spec fn pair_at(&self, k: int) -> (Seq<char>, Seq<char>) {
        (self.entries@[k].metric_name@, self.entries@[k].backend_name@)
    }

    /// The id and backend of `name`, if the catalog knows it: the unique row
    /// holding `name`.
    pub open spec fn spec_lookup(&self, name: Seq<char>) -> Option<(int, Seq<char>)> {
        if exists|k: int| 0 <= k < self.entries@.len() && (#[trigger] self.pair_at(k)).0 == name {
            let k = choose|k: int|
                0 <= k < self.entries@.len() && (#[trigger] self.pair_at(k)).0 == name;
            Some((k, self.pair_at(k).1))
        } else {
            None
        }
    }

    /// Build the catalog from a packaged definition: ids are assigned
    /// sequentially over the definition's groups, in order, so that row `k`
    /// of the result is the `k`-th metric of the flattened definition.
    pub fn new(version: i64, groups: &Vec<BackendGroup>) -> (r: Catalog)
        requires
            flattened_groups(groups.deep_view()).len() <= i32::MAX,
            forall|a: int, b: int|
                0 <= a < b < flattened_groups(groups.deep_view()).len() ==> (
                #[trigger] flattened_groups(groups.deep_view())[a]).0 != (
                #[trigger] flattened_groups(groups.deep_view())[b]).0,
        ensures
            r.version == version,
            r.wf(),
            r.entries@.len() == flattened_groups(groups.deep_view()).len(),
            forall|k: int|
                0 <= k < r.entries@.len() ==> #[trigger] r.pair_at(k) == flattened_groups(
                    groups.deep_view(),
                )[k],
    {
        let ghost gm = groups.deep_view();
        let ghost all = flattened_groups(gm);
        let mut entries: Vec<CatalogEntry> = Vec::new();
        let mut i: usize = 0;
        while i < groups.len()
            invariant
                i <= groups@.len(),
                gm == groups.deep_view(),
                all == flattened_groups(gm),
                gm.len() == groups@.len(),
                all.len() <= i32::MAX,
                entries@.len() == flattened_groups(gm.take(i as int)).len(),
                entries@.len() <= all.len(),
                forall|k: int|
                    0 <= k < entries@.len() ==> (#[trigger] entries@[k]).metric_id == k,
                forall|k: int|
                    0 <= k < entries@.len() ==> (entries@[k].metric_name@,
                    entries@[k].backend_name@) == flattened_groups(gm.take(i as int))[k],
                forall|k: int|
                    0 <= k < entries@.len() ==> flattened_groups(gm.take(i as int))[k] == all[k],
            decreases groups@.len() - i,
        {
            let ghost before = flattened_groups(gm.take(i as int));
            proof {
                assert(gm[i as int] == groups@[i as int].deep_view());
                lemma_flattened_groups_take_step(gm, i as int);
                lemma_flattened_prefix(gm, i as int + 1);
            }
            let group = &groups[i];
            let mut j: usize = 0;
            while j < group.metric_names.len()
                invariant
                    j <= group.metric_names@.len(),
                    group == &groups@[i as int],
                    0 <= i < gm.len(),
                    gm == groups.deep_view(),
                    all == flattened_groups(gm),
                    gm.len() == groups@.len(),
                    all.len() <= i32::MAX,
                    gm[i as int] == groups@[i as int].deep_view(),
                    group.metric_names@.len() == group_pairs(gm[i as int]).len(),
                    entries@.len() == before.len() + j,
                    entries@.len() <= all.len(),
                    before == flattened_groups(gm.take(i as int)),
                    flattened_groups(gm.take(i as int + 1)) == before + group_pairs(gm[i as int]),
                    flattened_groups(gm.take(i as int + 1)).len() <= all.len(),
                    forall|k: int|
                        0 <= k < flattened_groups(gm.take(i as int + 1)).len()
                            ==> #[trigger] flattened_groups(gm.take(i as int + 1))[k] == all[k],
                    forall|k: int|
                        0 <= k < entries@.len() ==> (#[trigger] entries@[k]).metric_id == k,
                    forall|k: int|
                        0 <= k < entries@.len() ==> (entries@[k].metric_name@,
                        entries@[k].backend_name@) == all[k],
                decreases group.metric_names@.len() - j,
            {
                proof {
                    assert(group_pairs(gm[i as int])[j as int] == (
                        group.metric_names.deep_view()[j as int],
                        group.backend_name@,
                    ));
                    assert(flattened_groups(gm.take(i as int + 1))[before.len() + j] == (
                        group.metric_names.deep_view()[j as int],
                        group.backend_name@,
                    ));
                }
                let entry = CatalogEntry {
                    metric_name: group.metric_names[j].clone(),
                    metric_id: entries.len() as i32,
                    backend_name: group.backend_name.clone(),
                };
                entries.push(entry);
                j += 1;
            }
            i += 1;
        }
        proof {
            assert(gm.take(gm.len() as int) =~= gm);
        }
        let r = Catalog { version, entries };
        proof {
            assert forall|k: int| 0 <= k < r.entries@.len() implies #[trigger] r.pair_at(k)
                == all[k] by {
                assert((r.entries@[k].metric_name@, r.entries@[k].backend_name@) == all[k]);
            }
            assert forall|k1: int, k2: int|
                0 <= k1 < k2 < r.entries@.len() implies r.entries@[k1].metric_name@
                != r.entries@[k2].metric_name@ by {
                assert(r.pair_at(k1) == all[k1]);
                assert(r.pair_at(k2) == all[k2]);
            }
        }
        r
    }

    /// The id and backend that own `name`, or `None` for a metric the catalog
    /// does not know.
    pub fn lookup(&self, name: &String) -> (r: Option<(i32, String)>)
        requires
            self.wf(),
        ensures
            match r {
                Some((id, backend)) => self.spec_lookup(name@) == Some(
                    (id as int, backend@),
                ),
                None => self.spec_lookup(name@) is None,
            },
    {
        let mut i: usize = 0;
        while i < self.entries.len()
            invariant
                i <= self.entries@.len(),
                self.wf(),
                forall|k: int| 0 <= k < i ==> (#[trigger] self.pair_at(k)).0 != name@,
            decreases self.entries@.len() - i,
        {
            if self.entries[i].metric_name.eq(name) {
                proof {
                    assert(self.pair_at(i as int).0 == name@);
                    let k = choose|k: int|
                        0 <= k < self.entries@.len() && (#[trigger] self.pair_at(k)).0 == name@;
                    assert(k == i as int);
                }
                return Some((self.entries[i].metric_id, self.entries[i].backend_name.clone()));
            }
            i += 1;
        }
        proof {
            assert forall|k: int|
                0 <= k < self.entries@.len() implies (#[trigger] self.pair_at(k)).0 != name@ by {}
        }
        None
    }
}

/// The character for one decimal digit.
pub open spec fn digit_char(d: int) -> char {
    if d == 0 {
        '0'
    } else if d == 1 {
        '1'
    } else if d == 2 {
        '2'
    } else if d == 3 {
        '3'
    } else if d == 4 {
        '4'
    } else if d == 5 {
        '5'
    } else if d == 6 {
        '6'
    } else if d == 7 {
        '7'
    } else if d == 8 {
        '8'
    } else {
        '9'
    }
}

/// The decimal notation of a non-negative integer, without leading zeros.
pub open spec fn decimal_digits(n: int) -> Seq<char>
    recommends
        n >= 0,
    decreases n,
{
    if n < 10 {
        seq![digit_char(n)]
    } else {
        decimal_digits(n / 10).push(digit_char(n % 10))
    }
}

/// Append the decimal notation of `n` to `s`.
pub fn push_decimal(s: &mut String, n: i32)
    requires
        n >= 0,
    ensures
        final(s)@ == old(s)@ + decimal_digits(n as int),
    decreases n,
{
    if n >= 10 {
        push_decimal(s, n / 10);
    }
    let d = n % 10;
    let digit: &str = match d {
        0 => "0",
        1 => "1",
        2 => "2",
        3 => "3",
        4 => "4",
        5 => "5",
        6 => "6",
        7 => "7",
        8 => "8",
        _ => "9",
    };
    proof {
        reveal_strlit("0");
        reveal_strlit("1");
        reveal_strlit("2");
        reveal_strlit("3");
        reveal_strlit("4");
        reveal_strlit("5");
        reveal_strlit("6");
        reveal_strlit("7");
        reveal_strlit("8");
        reveal_strlit("9");
        assert(digit@ =~= seq![digit_char(d as int)]);
    }
    s.append(digit);
    proof {
        if n >= 10 {
            assert(final(s)@ =~= old(s)@ + decimal_digits(n as int));
        } else {
            assert(old(s)@ + digit@ =~= old(s)@ + decimal_digits(n as int));
        }
    }
}

/// The compressed (decimal-id) form of a metric name under a catalog, empty
/// for an unknown name.
pub open spec fn id_digits(cat: &Catalog, name: Seq<char>) -> Seq<char> {
    match cat.spec_lookup(name) {
        Some(p) => decimal_digits(p.0),
        None => Seq::empty(),
    }
}

/// Replace metric names by their catalog ids, written in decimal, so that
/// outgoing messages carry small integers instead of names.  Returns `None`
/// when some name is not in the catalog — an unknown metric name is a
/// configuration error the caller must treat as fatal.
pub fn compress_metric_names(catalog: &Catalog, metric_names: &Vec<String>) -> (r: Option<
    Vec<String>,
>)
    requires
        catalog.wf(),
    ensures
        match r {
            Some(ids) => {
                &&& forall|i: int|
                    0 <= i < metric_names.deep_view().len() ==> catalog.spec_lookup(
                        #[trigger] metric_names.deep_view()[i],
                    ) is Some
                &&& ids.deep_view().len() == metric_names.deep_view().len()
                &&& forall|i: int|
                    0 <= i < ids.deep_view().len() ==> #[trigger] ids.deep_view()[i] == id_digits(
                        catalog,
                        metric_names.deep_view()[i],
                    )
            },
            None => exists|i: int|
                0 <= i < metric_names.deep_view().len() && catalog.spec_lookup(
                    #[trigger] metric_names.deep_view()[i],
                ) is None,
        },
{
    let mut res: Vec<String> = Vec::new();
    let mut i: usize = 0;
    while i < metric_names.len()
        invariant
            i <= metric_names@.len(),
            catalog.wf(),
            res@.len() == i,
            forall|j: int|
                0 <= j < i ==> catalog.spec_lookup(#[trigger] metric_names.deep_view()[j]) is Some,
            forall|j: int|
                0 <= j < i ==> (#[trigger] res@[j])@ == id_digits(
                    catalog,
                    metric_names.deep_view()[j],
                ),
        decreases metric_names@.len() - i,
    {
        match catalog.lookup(&metric_names[i]) {
            None => {
                proof {
                    assert(catalog.spec_lookup(metric_names.deep_view()[i as int]) is None);
                }
                return None;
            },
            Some((id, _backend)) => {
                let mut text = String::new();
                push_decimal(&mut text, id);
                proof {
                    assert(text@ =~= id_digits(catalog, metric_names.deep_view()[i as int]));
                }
                res.push(text);
            },
        }
        i += 1;
    }
    proof {
        assert forall|j: int| 0 <= j < res.deep_view().len() implies #[trigger] res.deep_view()[j]
            == id_digits(catalog, metric_names.deep_view()[j]) by {
            assert(res.deep_view()[j] == res@[j]@);
        }
    }
    Some(res)
}
pub proof fn lemma_flattened_prefix(groups: Seq<BackendGroupModel>, i: int)
    requires
        0 <= i <= groups.len(),
    ensures
        flattened_groups(groups.take(i)).len() <= flattened_groups(groups).len(),
        forall|k: int|
            0 <= k < flattened_groups(groups.take(i)).len() ==> #[trigger] flattened_groups(
                groups.take(i),
            )[k] == flattened_groups(groups)[k],
    decreases groups.len() - i,
{
    if i == groups.len() {
        assert(groups.take(i) =~= groups);
    } else {
        lemma_flattened_groups_take_step(groups, i);
        lemma_flattened_prefix(groups, i + 1);
        assert forall|k: int|
            0 <= k < flattened_groups(groups.take(i)).len() implies #[trigger] flattened_groups(
            groups.take(i),
        )[k] == flattened_groups(groups)[k] by {
            assert(flattened_groups(groups.take(i + 1))[k] == flattened_groups(groups.take(i))[k]);
        }
    }
}

} // verus!
