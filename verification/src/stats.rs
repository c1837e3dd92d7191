//! Per-contributor running totals: the accumulator the classification
//! pipeline fills, and its finalization into presentation rows with medians
//! and column extrema.

use vstd::multiset::Multiset;
use vstd::prelude::*;

verus! {

/// Running totals for one canonical identity.
pub struct ContributorStats {
    /// How many commits were credited.
    pub commits: u64,
    /// Lines added over all credited commits.
    pub insertions: u64,
    /// Lines removed over all credited commits.
    pub deletions: u64,
    /// Per credited commit, its insertions plus deletions, in credit order.
    pub samples: Vec<u64>,
}

/// The mathematical value of one contributor's totals.
pub ghost struct StatsView {
    pub commits: int,
    pub insertions: int,
    pub deletions: int,
    pub samples: Seq<int>,
}

impl View for ContributorStats {
    type V = StatsView;

    open spec fn view(&self) -> StatsView {
        StatsView {
            commits: self.commits as int,
            insertions: self.insertions as int,
            deletions: self.deletions as int,
            samples: Seq::new(self.samples@.len(), |i: int| self.samples@[i] as int),
        }
    }
}

/// Per-identity totals, one entry per credited identity in first-credit
/// order.
pub struct StatsMap {
    pub entries: Vec<(String, ContributorStats)>,
}

impl View for StatsMap {
    type V = Seq<(Seq<char>, StatsView)>;

    open spec fn view(&self) -> Self::V {
        Seq::new(self.entries@.len(), |i: int| (self.entries@[i].0@, self.entries@[i].1@))
    }
}

/// The position of the entry for `name`, if one exists.
pub open spec fn stats_index(es: Seq<(Seq<char>, StatsView)>, name: Seq<char>) -> Option<int>
    decreases es.len(),
{
    if es.len() == 0 {
        None
    } else if es[0].0 == name {
        Some(0)
    } else {
        match stats_index(es.subrange(1, es.len() as int), name) {
            None => None,
            Some(i) => Some(i + 1),
        }
    }
}

/// `stats_index` points at the first entry for `name`, or at nothing when
/// no entry holds it.
pub proof fn lemma_stats_index(es: Seq<(Seq<char>, StatsView)>, name: Seq<char>)
    ensures
        match stats_index(es, name) {
            Some(i) => 0 <= i < es.len() && es[i].0 == name && forall|j: int|
                0 <= j < i ==> (#[trigger] es[j]).0 != name,
            None => forall|j: int| 0 <= j < es.len() ==> (#[trigger] es[j]).0 != name,
        },
    decreases es.len(),
{
    if es.len() > 0 && es[0].0 != name {
        let tail = es.subrange(1, es.len() as int);
        lemma_stats_index(tail, name);
        match stats_index(es, name) {
            Some(i) => {
                assert(tail[i - 1] == es[i]);
                assert forall|j: int| 0 <= j < i implies (#[trigger] es[j]).0 != name by {
                    if j > 0 {
                        assert(tail[j - 1] == es[j]);
                    }
                }
            },
            None => {
                assert forall|j: int| 0 <= j < es.len() implies (#[trigger] es[j]).0 != name by {
                    if j > 0 {
                        assert(tail[j - 1] == es[j]);
                    }
                }
            },
        }
    }
}

/// Totals after crediting `name` with one commit adding `ins` lines and
/// removing `dels`: an existing entry grows in place, a new identity gets a
/// fresh entry at the back.
pub open spec fn spec_credit(
    es: Seq<(Seq<char>, StatsView)>,
    name: Seq<char>,
    ins: int,
    dels: int,
) -> Seq<(Seq<char>, StatsView)> {
    match stats_index(es, name) {
        Some(i) => {
            let s = es[i].1;
            es.update(
                i,
                (
                    name,
                    StatsView {
                        commits: s.commits + 1,
                        insertions: s.insertions + ins,
                        deletions: s.deletions + dels,
                        samples: s.samples.push(ins + dels),
                    },
                ),
            )
        },
        None => es.push(
            (
                name,
                StatsView { commits: 1, insertions: ins, deletions: dels, samples: seq![ins + dels] },
            ),
        ),
    }
}

/// Well-formed totals: no identity twice, every entry credited at least
/// once with one sample per credit, and nothing negative.
pub open spec fn stats_wf(es: Seq<(Seq<char>, StatsView)>) -> bool {
    (forall|i: int, j: int| 0 <= i < j < es.len() ==> (#[trigger] es[i]).0 != (#[trigger] es[j]).0)
        && (forall|i: int|
        0 <= i < es.len() ==> {
            let s = (#[trigger] es[i]).1;
            s.commits == s.samples.len() && s.commits >= 1 && s.insertions >= 0 && s.deletions >= 0
                && forall|j: int| 0 <= j < s.samples.len() ==> #[trigger] s.samples[j] >= 0
        })
}

/// One entry's totals stay within machine bounds.
pub open spec fn fits_entry(s: StatsView) -> bool {
    s.commits <= u64::MAX && s.insertions + s.deletions <= u64::MAX && forall|j: int|
        0 <= j < s.samples.len() ==> #[trigger] s.samples[j] <= u64::MAX
}

/// Every entry's totals stay within machine bounds.
pub open spec fn stats_fit(es: Seq<(Seq<char>, StatsView)>) -> bool {
    forall|i: int| 0 <= i < es.len() ==> fits_entry((#[trigger] es[i]).1)
}

/// Crediting keeps the totals well formed.
pub proof fn lemma_credit_wf(es: Seq<(Seq<char>, StatsView)>, name: Seq<char>, ins: int, dels: int)
    requires
        stats_wf(es),
        ins >= 0,
        dels >= 0,
    ensures
        stats_wf(spec_credit(es, name, ins, dels)),
{
    lemma_stats_index(es, name);
    let es2 = spec_credit(es, name, ins, dels);
    match stats_index(es, name) {
        Some(i) => {
            assert forall|a: int, b: int| 0 <= a < b < es2.len() implies (#[trigger] es2[a]).0 != (
            #[trigger] es2[b]).0 by {
                assert(es2[a].0 == es[a].0);
                assert(es2[b].0 == es[b].0);
            }
        },
        None => {},
    }
}

/// One entry's totals are no larger than another's, sample by sample.
pub open spec fn entry_le(a: StatsView, b: StatsView) -> bool {
    a.commits <= b.commits && a.insertions <= b.insertions && a.deletions <= b.deletions
        && a.samples.is_prefix_of(b.samples)
}

/// Entry-wise growth: `y` extends `x` and no total shrank.
pub open spec fn stats_le(x: Seq<(Seq<char>, StatsView)>, y: Seq<(Seq<char>, StatsView)>) -> bool {
    x.len() <= y.len() && forall|i: int|
        0 <= i < x.len() ==> (#[trigger] y[i]).0 == (#[trigger] x[i]).0 && entry_le(x[i].1, y[i].1)
}

/// Entry-wise growth is transitive.
pub proof fn lemma_stats_le_trans(
    x: Seq<(Seq<char>, StatsView)>,
    y: Seq<(Seq<char>, StatsView)>,
    z: Seq<(Seq<char>, StatsView)>,
)
    requires
        stats_le(x, y),
        stats_le(y, z),
    ensures
        stats_le(x, z),
{
    assert forall|i: int| 0 <= i < x.len() implies (#[trigger] z[i]).0 == (#[trigger] x[i]).0
        && entry_le(x[i].1, z[i].1) by {
        assert(y[i].0 == x[i].0 && entry_le(x[i].1, y[i].1));
        assert(z[i].0 == y[i].0 && entry_le(y[i].1, z[i].1));
        assert(x[i].1.samples.is_prefix_of(y[i].1.samples));
        assert(y[i].1.samples.is_prefix_of(z[i].1.samples));
        assert forall|j: int| 0 <= j < x[i].1.samples.len() implies x[i].1.samples[j]
            == z[i].1.samples[j] by {
            assert(x[i].1.samples[j] == y[i].1.samples[j]);
            assert(y[i].1.samples[j] == z[i].1.samples[j]);
        }
        assert(x[i].1.samples =~= z[i].1.samples.take(x[i].1.samples.len() as int));
    }
}

/// A credit only grows the totals.
pub proof fn lemma_credit_le(
    es: Seq<(Seq<char>, StatsView)>,
    name: Seq<char>,
    ins: int,
    dels: int,
)
    requires
        ins >= 0,
        dels >= 0,
    ensures
        stats_le(es, spec_credit(es, name, ins, dels)),
{
    crate::stats::lemma_stats_index(es, name);
    let es2 = spec_credit(es, name, ins, dels);
    match crate::stats::stats_index(es, name) {
        Some(i) => {
            assert forall|k: int| 0 <= k < es.len() implies (#[trigger] es2[k]).0 == (
            #[trigger] es[k]).0 && entry_le(es[k].1, es2[k].1) by {
                if k == i {
                    assert(es[k].1.samples =~= es2[k].1.samples.take(
                        es[k].1.samples.len() as int,
                    ));
                } else {
                    assert(es[k].1.samples =~= es2[k].1.samples.take(
                        es[k].1.samples.len() as int,
                    ));
                }
            }
        },
        None => {
            assert forall|k: int| 0 <= k < es.len() implies (#[trigger] es2[k]).0 == (
            #[trigger] es[k]).0 && entry_le(es[k].1, es2[k].1) by {
                assert(es[k].1.samples =~= es2[k].1.samples.take(es[k].1.samples.len() as int));
            }
        },
    }
}

/// Bounded final totals bound every earlier state of the fold.
pub proof fn lemma_le_fit(x: Seq<(Seq<char>, StatsView)>, y: Seq<(Seq<char>, StatsView)>)
    requires
        stats_le(x, y),
        stats_fit(y),
    ensures
        stats_fit(x),
{
    assert forall|i: int| 0 <= i < x.len() implies fits_entry((#[trigger] x[i]).1) by {
        assert(fits_entry(y[i].1));
        assert(entry_le(x[i].1, y[i].1));
        assert forall|j: int| 0 <= j < x[i].1.samples.len() implies #[trigger] x[i].1.samples[j]
            <= u64::MAX by {
            assert(x[i].1.samples[j] == y[i].1.samples[j]);
        }
    }
}

/// Copy a list of numbers.
fn copy_u64s(v: &Vec<u64>) -> (r: Vec<u64>)
    ensures
        r@ == v@,
{
    let mut r: Vec<u64> = Vec::new();
    let mut i: usize = 0;
    while i < v.len()
        invariant
            i <= v@.len(),
            r@ == v@.take(i as int),
        decreases v@.len() - i,
    {
        r.push(v[i]);
        assert(r@ =~= v@.take(i + 1));
        i += 1;
    }
    proof {
        assert(v@.take(v@.len() as int) =~= v@);
    }
    r
}

/// The position of the entry for `name`, if any.
fn find_stat(m: &StatsMap, name: &String) -> (r: Option<usize>)
    ensures
        match r {
            Some(i) => stats_index(m@, name@) == Some(i as int),
            None => stats_index(m@, name@) is None,
        },
{
    let mut i: usize = 0;
    while i < m.entries.len()
        invariant
            i <= m.entries@.len(),
            m@.len() == m.entries@.len(),
            forall|k: int| 0 <= k < i ==> (#[trigger] m@[k]).0 != name@,
        decreases m.entries@.len() - i,
    {
        if m.entries[i].0.eq(name) {
            proof {
                lemma_stats_index(m@, name@);
                assert(m@[i as int].0 == name@);
            }
            return Some(i);
        }
        assert(m@[i as int].0 != name@);
        i += 1;
    }
    proof {
        lemma_stats_index(m@, name@);
    }
    None
}

impl StatsMap {
    /// Entries are well formed.
    pub open spec fn wf(&self) -> bool {
        stats_wf(self@)
    }

    /// An empty accumulator.
    pub fn new() -> (m: StatsMap)
        ensures
            m@ =~= Seq::<(Seq<char>, StatsView)>::empty(),
            m.wf(),
    {
        let m = StatsMap { entries: Vec::new() };
        proof {
            assert(m@ =~= Seq::<(Seq<char>, StatsView)>::empty());
        }
        m
    }

    /// How many identities hold credits.
    pub fn len(&self) -> (n: usize)
        ensures
            n == self@.len(),
    {
        self.entries.len()
    }

    /// The totals credited to `name`, if any.
    pub fn totals_of(&self, name: &String) -> (r: Option<&ContributorStats>)
        ensures
            match r {
                Some(s) => exists|i: int|
                    0 <= i < self@.len() && (#[trigger] self@[i]) == (name@, s@),
                None => forall|i: int| 0 <= i < self@.len() ==> (#[trigger] self@[i]).0 != name@,
            },
    {
        proof {
            lemma_stats_index(self@, name@);
        }
        match find_stat(self, name) {
            Some(i) => {
                let r = &self.entries[i].1;
                assert(self@[i as int] == (name@, r@));
                Some(r)
            },
            None => None,
        }
    }

    /// Credit `name` with one commit adding `ins` lines and removing
    /// `dels`, growing its entry or creating one.
    pub fn credit(&mut self, name: &String, ins: u64, dels: u64)
        requires
            old(self).wf(),
            stats_fit(spec_credit(old(self)@, name@, ins as int, dels as int)),
        ensures
            final(self)@ == spec_credit(old(self)@, name@, ins as int, dels as int),
            final(self).wf(),
    {
        proof {
            lemma_credit_le(self@, name@, ins as int, dels as int);
            lemma_le_fit(self@, spec_credit(self@, name@, ins as int, dels as int));
        }
        let r = self.try_credit(name, ins, dels);
        proof {
            assert(r);
        }
    }

    /// Credit `name` if the grown totals stay within machine bounds, and
    /// report whether they do; on an overflow nothing changes.
    pub fn try_credit(&mut self, name: &String, ins: u64, dels: u64) -> (r: bool)
        requires
            old(self).wf(),
            stats_fit(old(self)@),
        ensures
            r == stats_fit(spec_credit(old(self)@, name@, ins as int, dels as int)),
            r ==> final(self)@ == spec_credit(old(self)@, name@, ins as int, dels as int),
            !r ==> final(self)@ == old(self)@,
            final(self).wf(),
            stats_fit(final(self)@),
    {
        let ghost es = self@;
        let ghost target = spec_credit(es, name@, ins as int, dels as int);
        proof {
            lemma_stats_index(es, name@);
            lemma_credit_wf(es, name@, ins as int, dels as int);
        }
        match find_stat(self, name) {
            Some(i) => {
                let ghost ti = target[i as int].1;
                proof {
                    assert(target == es.update(i as int, target[i as int]));
                    assert(fits_entry(es[i as int].1));
                    assert(ti.samples == es[i as int].1.samples.push(ins as int + dels as int));
                    if fits_entry(ti) {
                        assert forall|k: int| 0 <= k < target.len() implies fits_entry(
                            (#[trigger] target[k]).1,
                        ) by {
                            if k != i {
                                assert(target[k] == es[k]);
                            }
                        }
                    } else {
                        assert(!stats_fit(target));
                    }
                    assert(stats_fit(target) == fits_entry(ti));
                }
                let c = self.entries[i].1.commits;
                let a = self.entries[i].1.insertions;
                let d = self.entries[i].1.deletions;
                let ok = c < u64::MAX && match a.checked_add(ins) {
                    Some(s1) => match d.checked_add(dels) {
                        Some(s2) => s1.checked_add(s2).is_some(),
                        None => false,
                    },
                    None => false,
                };
                proof {
                    if ok {
                        assert(ti.commits <= u64::MAX);
                        assert(ti.insertions + ti.deletions <= u64::MAX);
                        assert forall|j: int| 0 <= j < ti.samples.len() implies #[trigger] ti.samples[j]
                            <= u64::MAX by {
                            if j < es[i as int].1.samples.len() {
                                assert(ti.samples[j] == es[i as int].1.samples[j]);
                            } else {
                                assert(ti.samples[j] == ins as int + dels as int);
                            }
                        }
                        assert(fits_entry(ti));
                    } else {
                        assert(!fits_entry(ti));
                    }
                }
                if !ok {
                    return false;
                }
                let mut samples = copy_u64s(&self.entries[i].1.samples);
                samples.push(ins + dels);
                let fresh = ContributorStats {
                    commits: c + 1,
                    insertions: a + ins,
                    deletions: d + dels,
                    samples,
                };
                let name2 = name.clone();
                self.entries[i] = (name2, fresh);
                proof {
                    assert(fresh@.samples =~= es[i as int].1.samples.push(ins as int + dels as int));
                    assert(self@ =~= target);
                }
                true
            },
            None => {
                let ghost ti = target[es.len() as int].1;
                proof {
                    assert(target == es.push(target[es.len() as int]));
                    assert(ti.samples == seq![ins as int + dels as int]);
                    if fits_entry(ti) {
                        assert forall|k: int| 0 <= k < target.len() implies fits_entry(
                            (#[trigger] target[k]).1,
                        ) by {
                            if k != es.len() {
                                assert(target[k] == es[k]);
                            }
                        }
                    } else {
                        assert(!stats_fit(target));
                    }
                    assert(stats_fit(target) == fits_entry(ti));
                }
                let ok = ins.checked_add(dels).is_some();
                proof {
                    assert(ti.samples[0] == ins as int + dels as int);
                    assert(ok == fits_entry(ti));
                }
                if !ok {
                    return false;
                }
                let mut samples: Vec<u64> = Vec::new();
                samples.push(ins + dels);
                let fresh = ContributorStats { commits: 1, insertions: ins, deletions: dels, samples };
                let name2 = name.clone();
                self.entries.push((name2, fresh));
                proof {
                    assert(fresh@.samples =~= seq![ins as int + dels as int]);
                    assert(self@ =~= target);
                }
                true
            },
        }
    }
}

/// The numbers of `s`, widened.
pub open spec fn ints_of(s: Seq<u64>) -> Seq<int> {
    Seq::new(s.len(), |i: int| s[i] as int)
}

/// `x` placed into an ascending run: before the first element it does not
/// exceed.
pub open spec fn insert_sorted(s: Seq<int>, x: int) -> Seq<int>
    decreases s.len(),
{
    if s.len() == 0 {
        seq![x]
    } else if x <= s[0] {
        seq![x] + s
    } else {
        seq![s[0]] + insert_sorted(s.subrange(1, s.len() as int), x)
    }
}

/// The ascending reordering of `s`, built by repeated insertion.
pub open spec fn sort_ints(s: Seq<int>) -> Seq<int>
    decreases s.len(),
{
    if s.len() == 0 {
        Seq::empty()
    } else {
        insert_sorted(sort_ints(s.drop_last()), s.last())
    }
}

/// Inserting into an ascending run keeps it ascending and adds exactly the
/// new element.
pub proof fn lemma_insert_sorted(s: Seq<int>, x: int)
    requires
        vstd::relations::sorted_by(s, |a: int, b: int| a <= b),
    ensures
        vstd::relations::sorted_by(insert_sorted(s, x), |a: int, b: int| a <= b),
        insert_sorted(s, x).to_multiset() == s.to_multiset().insert(x),
        insert_sorted(s, x).len() == s.len() + 1,
    decreases s.len(),
{
    broadcast use vstd::seq_lib::group_to_multiset_ensures;

    let leq = |a: int, b: int| a <= b;
    let r = insert_sorted(s, x);
    if s.len() == 0 {
        assert(r =~= Seq::empty().push(x));
        assert(r.to_multiset() =~= s.to_multiset().insert(x));
    } else if x <= s[0] {
        assert(r =~= Seq::empty().push(x) + s);
        vstd::seq_lib::lemma_multiset_commutative(Seq::empty().push(x), s);
        assert(Seq::<int>::empty().push(x).to_multiset() =~= Multiset::empty().insert(x));
        assert(r.to_multiset() =~= s.to_multiset().insert(x));
        assert forall|i: int, j: int| 0 <= i < j < r.len() implies leq(r[i], r[j]) by {
            if i > 0 {
                assert(leq(s[i - 1], s[j - 1]));
            } else if j > 0 {
                assert(x <= s[0]);
                if j > 1 {
                    assert(leq(s[0], s[j - 1]));
                }
            }
        }
    } else {
        let tail = s.subrange(1, s.len() as int);
        assert(vstd::relations::sorted_by(tail, leq)) by {
            assert forall|i: int, j: int| 0 <= i < j < tail.len() implies leq(tail[i], tail[j]) by {
                assert(tail[i] == s[i + 1] && tail[j] == s[j + 1]);
                assert(leq(s[i + 1], s[j + 1]));
            }
        }
        lemma_insert_sorted(tail, x);
        let rec = insert_sorted(tail, x);
        assert(r =~= Seq::empty().push(s[0]) + rec);
        vstd::seq_lib::lemma_multiset_commutative(Seq::empty().push(s[0]), rec);
        assert(Seq::<int>::empty().push(s[0]).to_multiset() =~= Multiset::empty().insert(s[0]));
        assert(s =~= Seq::empty().push(s[0]) + tail);
        vstd::seq_lib::lemma_multiset_commutative(Seq::empty().push(s[0]), tail);
        assert(r.to_multiset() =~= s.to_multiset().insert(x));
        assert forall|i: int, j: int| 0 <= i < j < r.len() implies leq(r[i], r[j]) by {
            if i == 0 {
                // r[j] is either x (> s[0]) or an element of tail (>= s[0]).
                assert(rec.to_multiset().contains(rec[j - 1]));
                assert(tail.to_multiset().insert(x).contains(rec[j - 1]));
                if rec[j - 1] != x {
                    assert(tail.to_multiset().contains(rec[j - 1]));
                    let w = choose|w: int| 0 <= w < tail.len() && tail[w] == rec[j - 1];
                    assert(leq(s[0], s[w + 1]));
                }
            } else {
                assert(leq(rec[i - 1], rec[j - 1]));
            }
        }
    }
}

/// The insertion sort of `s` is ascending and reorders exactly `s`.
pub proof fn lemma_sort_ints(s: Seq<int>)
    ensures
        vstd::relations::sorted_by(sort_ints(s), |a: int, b: int| a <= b),
        sort_ints(s).to_multiset() == s.to_multiset(),
        sort_ints(s).len() == s.len(),
    decreases s.len(),
{
    broadcast use vstd::seq_lib::group_to_multiset_ensures;

    if s.len() == 0 {
    } else {
        lemma_sort_ints(s.drop_last());
        lemma_insert_sorted(sort_ints(s.drop_last()), s.last());
        assert(s =~= s.drop_last().push(s.last()));
        assert(s.drop_last().push(s.last()).to_multiset() =~= s.drop_last().to_multiset().insert(
            s.last(),
        ));
    }
}

/// Place `x` into an already ascending list of numbers.
fn insert_sorted_exec(s: Vec<u64>, x: u64) -> (r: Vec<u64>)
    ensures
        ints_of(r@) == insert_sorted(ints_of(s@), x as int),
    decreases s@.len(),
{
    let ghost sv = ints_of(s@);
    if s.len() == 0 {
        let mut r: Vec<u64> = Vec::new();
        r.push(x);
        proof {
            assert(ints_of(r@) =~= insert_sorted(sv, x as int));
        }
        r
    } else if x <= s[0] {
        let mut r = s;
        r.insert(0, x);
        proof {
            assert(ints_of(r@) =~= seq![x as int] + sv);
        }
        r
    } else {
        let first = s[0];
        let mut tail = s;
        tail.remove(0);
        proof {
            assert(ints_of(tail@) =~= sv.subrange(1, sv.len() as int));
        }
        let mut r = insert_sorted_exec(tail, x);
        r.insert(0, first);
        proof {
            assert(ints_of(r@) =~= seq![sv[0]] + insert_sorted(
                sv.subrange(1, sv.len() as int),
                x as int,
            ));
        }
        r
    }
}

/// The samples in ascending order.
fn sort_samples(v: &Vec<u64>) -> (r: Vec<u64>)
    ensures
        ints_of(r@) == sort_ints(ints_of(v@)),
{
    let ghost sv = ints_of(v@);
    let mut r: Vec<u64> = Vec::new();
    proof {
        assert(ints_of(r@) =~= sort_ints(sv.take(0)));
    }
    let mut i: usize = 0;
    while i < v.len()
        invariant
            i <= v@.len(),
            sv == ints_of(v@),
            ints_of(r@) == sort_ints(sv.take(i as int)),
        decreases v@.len() - i,
    {
        proof {
            assert(sv.take(i + 1).drop_last() =~= sv.take(i as int));
            assert(sv.take(i + 1).last() == sv[i as int]);
        }
        r = insert_sorted_exec(r, v[i]);
        i += 1;
    }
    proof {
        assert(sv.take(v@.len() as int) =~= sv);
    }
    r
}

/// One finalized presentation row.
pub struct FinalizedRow {
    /// The canonical identity the row belongs to.
    pub identity: String,
    /// Credited commits.
    pub commits: u64,
    /// Lines added over them.
    pub insertions: u64,
    /// Lines removed over them.
    pub deletions: u64,
    /// Lines modified per commit: `(insertions + deletions) / commits`,
    /// rounded down.
    pub avg: u64,
    /// The sample at the upper-median position of the ascending samples.
    pub median: u64,
}

/// What a finalized row must hold for entry `(name, s)`.
pub open spec fn row_matches(r: FinalizedRow, name: Seq<char>, s: StatsView) -> bool {
    r.identity@ == name && r.commits == s.commits && r.insertions == s.insertions && r.deletions
        == s.deletions && r.avg == (s.insertions + s.deletions) / s.commits && r.median
        == sort_ints(s.samples)[s.samples.len() as int / 2]
}

/// Turn the accumulated totals into presentation rows, one per identity in
/// first-credit order: the average is integer division, the median is the
/// element at index `len / 2` of the ascending samples (the upper median).
pub fn finalize(stats: &StatsMap) -> (rows: Vec<FinalizedRow>)
    requires
        stats.wf(),
        stats_fit(stats@),
    ensures
        rows@.len() == stats@.len(),
        forall|i: int|
            0 <= i < stats@.len() ==> row_matches(
                #[trigger] rows@[i],
                stats@[i].0,
                stats@[i].1,
            ),
{
    let ghost es = stats@;
    let mut rows: Vec<FinalizedRow> = Vec::new();
    let mut i: usize = 0;
    while i < stats.entries.len()
        invariant
            i <= stats.entries@.len(),
            es == stats@,
            stats.wf(),
            stats_fit(stats@),
            es.len() == stats.entries@.len(),
            rows@.len() == i,
            forall|k: int| 0 <= k < i ==> row_matches(#[trigger] rows@[k], es[k].0, es[k].1),
        decreases stats.entries@.len() - i,
    {
        proof {
            assert(es[i as int] == (stats.entries@[i as int].0@, stats.entries@[i as int].1@));
            assert(fits_entry(es[i as int].1));
        }
        let e = &stats.entries[i];
        let commits = e.1.commits;
        let ins = e.1.insertions;
        let dels = e.1.deletions;
        let sorted = sort_samples(&e.1.samples);
        proof {
            lemma_sort_ints(ints_of(e.1.samples@));
            assert(ints_of(e.1.samples@) =~= es[i as int].1.samples);
            assert(es[i as int].1.samples.len() >= 1);
        }
        let mid = e.1.samples.len() / 2;
        let median = sorted[mid];
        proof {
            assert(ints_of(sorted@)[mid as int] == median as int);
        }
        let row = FinalizedRow {
            identity: e.0.clone(),
            commits,
            insertions: ins,
            deletions: dels,
            avg: (ins + dels) / commits,
            median,
        };
        proof {
            assert(row_matches(row, es[i as int].0, es[i as int].1));
        }
        rows.push(row);
        i += 1;
    }
    rows
}

/// The largest number of a non-empty column.
pub open spec fn seq_max(s: Seq<u64>) -> u64
    recommends
        s.len() >= 1,
    decreases s.len(),
{
    if s.len() <= 1 {
        s[0]
    } else if s.last() >= seq_max(s.drop_last()) {
        s.last()
    } else {
        seq_max(s.drop_last())
    }
}

/// The smallest number of a non-empty column.
pub open spec fn seq_min(s: Seq<u64>) -> u64
    recommends
        s.len() >= 1,
    decreases s.len(),
{
    if s.len() <= 1 {
        s[0]
    } else if s.last() <= seq_min(s.drop_last()) {
        s.last()
    } else {
        seq_min(s.drop_last())
    }
}

/// How one cell is shown: highlighted as the column's maximum, as its
/// minimum, or plainly. A cell equal to both is shown as the maximum.
#[derive(PartialEq, Eq, Structural, Clone, Copy, Debug)]
pub enum CellMark {
    /// The value equals the column's maximum.
    Max,
    /// The value equals the column's minimum and not its maximum.
    Min,
    /// Neither extremum.
    Plain,
}

/// The mark of value `v` in a column: maxima win over minima on ties.
pub open spec fn spec_mark(col: Seq<u64>, v: u64) -> CellMark {
    if v == seq_max(col) {
        CellMark::Max
    } else if v == seq_min(col) {
        CellMark::Min
    } else {
        CellMark::Plain
    }
}

/// The marks of one row, column by column.
pub struct RowMarks {
    pub commits: CellMark,
    pub insertions: CellMark,
    pub deletions: CellMark,
    pub avg: CellMark,
    pub median: CellMark,
}

/// The commits column.
pub open spec fn col_commits(rows: Seq<FinalizedRow>) -> Seq<u64> {
    Seq::new(rows.len(), |i: int| rows[i].commits)
}

/// The insertions column.
pub open spec fn col_insertions(rows: Seq<FinalizedRow>) -> Seq<u64> {
    Seq::new(rows.len(), |i: int| rows[i].insertions)
}

/// The deletions column.
pub open spec fn col_deletions(rows: Seq<FinalizedRow>) -> Seq<u64> {
    Seq::new(rows.len(), |i: int| rows[i].deletions)
}

/// The average column.
pub open spec fn col_avg(rows: Seq<FinalizedRow>) -> Seq<u64> {
    Seq::new(rows.len(), |i: int| rows[i].avg)
}

/// The median column.
pub open spec fn col_median(rows: Seq<FinalizedRow>) -> Seq<u64> {
    Seq::new(rows.len(), |i: int| rows[i].median)
}

/// The marks row `i` gets.
pub open spec fn spec_row_marks(rows: Seq<FinalizedRow>, i: int) -> RowMarks {
    RowMarks {
        commits: spec_mark(col_commits(rows), rows[i].commits),
        insertions: spec_mark(col_insertions(rows), rows[i].insertions),
        deletions: spec_mark(col_deletions(rows), rows[i].deletions),
        avg: spec_mark(col_avg(rows), rows[i].avg),
        median: spec_mark(col_median(rows), rows[i].median),
    }
}

/// The largest element of a non-empty column.
fn col_max(v: &Vec<u64>) -> (r: u64)
    requires
        v@.len() >= 1,
    ensures
        r == seq_max(v@),
{
    let mut r = v[0];
    let mut i: usize = 1;
    proof {
        assert(v@.take(1) =~= seq![v@[0]]);
        assert(seq_max(v@.take(1)) == v@[0]);
    }
    while i < v.len()
        invariant
            1 <= i <= v@.len(),
            r == seq_max(v@.take(i as int)),
        decreases v@.len() - i,
    {
        proof {
            assert(v@.take(i + 1).drop_last() =~= v@.take(i as int));
            assert(v@.take(i + 1).last() == v@[i as int]);
        }
        if v[i] >= r {
            r = v[i];
        }
        i += 1;
    }
    proof {
        assert(v@.take(v@.len() as int) =~= v@);
    }
    r
}

/// The smallest element of a non-empty column.
fn col_min(v: &Vec<u64>) -> (r: u64)
    requires
        v@.len() >= 1,
    ensures
        r == seq_min(v@),
{
    let mut r = v[0];
    let mut i: usize = 1;
    proof {
        assert(v@.take(1) =~= seq![v@[0]]);
        assert(seq_min(v@.take(1)) == v@[0]);
    }
    while i < v.len()
        invariant
            1 <= i <= v@.len(),
            r == seq_min(v@.take(i as int)),
        decreases v@.len() - i,
    {
        proof {
            assert(v@.take(i + 1).drop_last() =~= v@.take(i as int));
            assert(v@.take(i + 1).last() == v@[i as int]);
        }
        if v[i] <= r {
            r = v[i];
        }
        i += 1;
    }
    proof {
        assert(v@.take(v@.len() as int) =~= v@);
    }
    r
}

/// The mark of `v` against a column's extrema.
fn mark_of(v: u64, max: u64, min: u64) -> (r: CellMark)
    ensures
        r == (if v == max {
            CellMark::Max
        } else if v == min {
            CellMark::Min
        } else {
            CellMark::Plain
        }),
{
    if v == max {
        CellMark::Max
    } else if v == min {
        CellMark::Min
    } else {
        CellMark::Plain
    }
}

/// Mark every cell that carries its column's maximum or minimum; every row
/// sharing the extremal value is marked, and a value that is both extrema
/// at once counts as the maximum.
pub fn mark_rows(rows: &Vec<FinalizedRow>) -> (marks: Vec<RowMarks>)
    ensures
        marks@.len() == rows@.len(),
        forall|i: int| 0 <= i < rows@.len() ==> #[trigger] marks@[i] == spec_row_marks(rows@, i),
{
    let n = rows.len();
    let mut marks: Vec<RowMarks> = Vec::new();
    if n == 0 {
        return marks;
    }
    let mut commits: Vec<u64> = Vec::new();
    let mut insertions: Vec<u64> = Vec::new();
    let mut deletions: Vec<u64> = Vec::new();
    let mut avgs: Vec<u64> = Vec::new();
    let mut medians: Vec<u64> = Vec::new();
    let mut i: usize = 0;
    while i < n
        invariant
            i <= n,
            n == rows@.len(),
            commits@ == col_commits(rows@).take(i as int),
            insertions@ == col_insertions(rows@).take(i as int),
            deletions@ == col_deletions(rows@).take(i as int),
            avgs@ == col_avg(rows@).take(i as int),
            medians@ == col_median(rows@).take(i as int),
        decreases n - i,
    {
        commits.push(rows[i].commits);
        insertions.push(rows[i].insertions);
        deletions.push(rows[i].deletions);
        avgs.push(rows[i].avg);
        medians.push(rows[i].median);
        proof {
            assert(commits@ =~= col_commits(rows@).take(i + 1));
            assert(insertions@ =~= col_insertions(rows@).take(i + 1));
            assert(deletions@ =~= col_deletions(rows@).take(i + 1));
            assert(avgs@ =~= col_avg(rows@).take(i + 1));
            assert(medians@ =~= col_median(rows@).take(i + 1));
        }
        i += 1;
    }
    proof {
        assert(col_commits(rows@).take(n as int) =~= col_commits(rows@));
        assert(col_insertions(rows@).take(n as int) =~= col_insertions(rows@));
        assert(col_deletions(rows@).take(n as int) =~= col_deletions(rows@));
        assert(col_avg(rows@).take(n as int) =~= col_avg(rows@));
        assert(col_median(rows@).take(n as int) =~= col_median(rows@));
    }
    let commits_max = col_max(&commits);
    let commits_min = col_min(&commits);
    let insertions_max = col_max(&insertions);
    let insertions_min = col_min(&insertions);
    let deletions_max = col_max(&deletions);
    let deletions_min = col_min(&deletions);
    let avg_max = col_max(&avgs);
    let avg_min = col_min(&avgs);
    let median_max = col_max(&medians);
    let median_min = col_min(&medians);
    let mut j: usize = 0;
    while j < n
        invariant
            j <= n,
            n == rows@.len(),
            marks@.len() == j,
            commits_max == seq_max(col_commits(rows@)),
            commits_min == seq_min(col_commits(rows@)),
            insertions_max == seq_max(col_insertions(rows@)),
            insertions_min == seq_min(col_insertions(rows@)),
            deletions_max == seq_max(col_deletions(rows@)),
            deletions_min == seq_min(col_deletions(rows@)),
            avg_max == seq_max(col_avg(rows@)),
            avg_min == seq_min(col_avg(rows@)),
            median_max == seq_max(col_median(rows@)),
            median_min == seq_min(col_median(rows@)),
            forall|k: int| 0 <= k < j ==> #[trigger] marks@[k] == spec_row_marks(rows@, k),
        decreases n - j,
    {
        let row_marks = RowMarks {
            commits: mark_of(rows[j].commits, commits_max, commits_min),
            insertions: mark_of(rows[j].insertions, insertions_max, insertions_min),
            deletions: mark_of(rows[j].deletions, deletions_max, deletions_min),
            avg: mark_of(rows[j].avg, avg_max, avg_min),
            median: mark_of(rows[j].median, median_max, median_min),
        };
        proof {
            assert(col_commits(rows@)[j as int] == rows@[j as int].commits);
            assert(row_marks == spec_row_marks(rows@, j as int));
        }
        marks.push(row_marks);
        j += 1;
    }
    marks
}

} // verus!
