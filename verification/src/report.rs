//! Per-language statistics: summing the results of the files of each
//! language, and ordering the languages for the report.

use vstd::prelude::*;

use crate::count::{Counts, Tally};
use crate::languages::LanguageId;

verus! {

broadcast use vstd::seq_lib::to_multiset_insert, vstd::seq_lib::to_multiset_build,
    LanguageId::lemma_index_injective;

/// Statistics of a group of files: how many, their size in bytes, and their
/// line counts.
#[derive(Debug, Clone, Copy, PartialEq, Eq, Structural)]
pub struct Stats {
    pub files: usize,
    pub bytes: u64,
    pub counts: Counts,
}

/// Statistics as mathematical numbers.
pub struct StatsView {
    pub files: nat,
    pub bytes: nat,
    pub counts: Tally,
}

impl StatsView {
    /// No files at all.
    pub open spec fn zero() -> StatsView {
        StatsView { files: 0, bytes: 0, counts: Tally::zero() }
    }

    /// Field-wise sum.
    pub open spec fn plus(self, other: StatsView) -> StatsView {
        StatsView {
            files: self.files + other.files,
            bytes: self.bytes + other.bytes,
            counts: self.counts.plus(other.counts),
        }
    }

    /// Every field is at most the corresponding field of `other`.
    pub open spec fn below(self, other: StatsView) -> bool {
        &&& self.files <= other.files
        &&& self.bytes <= other.bytes
        &&& self.counts.lines <= other.counts.lines
        &&& self.counts.blanks <= other.counts.blanks
        &&& self.counts.comments <= other.counts.comments
        &&& self.counts.code <= other.counts.code
    }

    /// The numbers fit the executable fields.
    pub open spec fn fits(self) -> bool {
        &&& self.files <= usize::MAX
        &&& self.bytes <= u64::MAX
        &&& self.counts.lines <= usize::MAX
        &&& self.counts.blanks <= usize::MAX
        &&& self.counts.comments <= usize::MAX
        &&& self.counts.code <= usize::MAX
    }
}

impl View for Stats {
    type V = StatsView;

    open spec fn view(&self) -> StatsView {
        StatsView { files: self.files as nat, bytes: self.bytes as nat, counts: self.counts@ }
    }
}

impl Default for Stats {
    fn default() -> (r: Self)
        ensures
            r@ == StatsView::zero(),
    {
        Stats { files: 0, bytes: 0, counts: Counts::default() }
    }
}

impl Stats {
    /// Adds `other` to these statistics, field by field.
    pub fn add_assign(&mut self, other: &Stats)
        requires
            old(self)@.plus(other@).fits(),
        ensures
            final(self)@ == old(self)@.plus(other@),
    {
        self.files = self.files + other.files;
        self.bytes = self.bytes + other.bytes;
        self.counts.add_assign(other.counts);
    }
}

/// The sum of the statistics of the first `k` results.
pub open spec fn sum_upto(rs: Seq<(LanguageId, Stats)>, k: int) -> StatsView
    decreases k,
{
    if k <= 0 {
        StatsView::zero()
    } else {
        sum_upto(rs, k - 1).plus(rs[k - 1].1@)
    }
}

/// The sum of the statistics of all results.
pub open spec fn sum_all(rs: Seq<(LanguageId, Stats)>) -> StatsView {
    sum_upto(rs, rs.len() as int)
}

/// The sum of the statistics of the first `k` results of language `id`.
pub open spec fn sum_for_upto(rs: Seq<(LanguageId, Stats)>, id: LanguageId, k: int) -> StatsView
    decreases k,
{
    if k <= 0 {
        StatsView::zero()
    } else if rs[k - 1].0 == id {
        sum_for_upto(rs, id, k - 1).plus(rs[k - 1].1@)
    } else {
        sum_for_upto(rs, id, k - 1)
    }
}

/// Language `id` has a result among the first `k` of `rs`.
#[verifier::opaque]
pub open spec fn occurs_in(rs: Seq<(LanguageId, Stats)>, k: int, id: LanguageId) -> bool {
    exists|m: int| 0 <= m < k && (#[trigger] rs[m]).0 == id
}

/// `g` has an entry for language `id`.
#[verifier::opaque]
pub open spec fn has_entry(g: Seq<(LanguageId, Stats)>, id: LanguageId) -> bool {
    exists|j: int| 0 <= j < g.len() && (#[trigger] g[j]).0 == id
}

/// `g` holds one entry per language, with the sum of that language's results
/// among the first `k` of `rs`, for exactly the languages that have one.
pub open spec fn groups_results(g: Seq<(LanguageId, Stats)>, rs: Seq<(LanguageId, Stats)>, k: int) -> bool {
    &&& forall|i: int, j: int|
        0 <= i < j < g.len() ==> (#[trigger] g[i]).0 != (#[trigger] g[j]).0
    &&& forall|j: int| 0 <= j < g.len() ==> (#[trigger] g[j]).1@ == sum_for_upto(rs, g[j].0, k)
    &&& forall|m: int| 0 <= m < k ==> has_entry(g, (#[trigger] rs[m]).0)
    &&& forall|j: int| 0 <= j < g.len() ==> occurs_in(rs, k, (#[trigger] g[j]).0)
}

/// A per-language sum is within the total.
pub proof fn lemma_sum_for_below(rs: Seq<(LanguageId, Stats)>, id: LanguageId, k: int)
    requires
        0 <= k <= rs.len(),
    ensures
        sum_for_upto(rs, id, k).below(sum_upto(rs, k)),
    decreases k,
{
    if k > 0 {
        lemma_sum_for_below(rs, id, k - 1);
    }
}

/// Partial sums grow with the number of results.
pub proof fn lemma_sum_grows(rs: Seq<(LanguageId, Stats)>, k: int, n: int)
    requires
        0 <= k <= n <= rs.len(),
    ensures
        sum_upto(rs, k).below(sum_upto(rs, n)),
    decreases n - k,
{
    if k < n {
        lemma_sum_grows(rs, k, n - 1);
    }
}

/// Adding `d` to entry `j` adds `d` to every partial sum that includes it.
proof fn lemma_sum_update(
    s: Seq<(LanguageId, Stats)>,
    j: int,
    e: (LanguageId, Stats),
    d: StatsView,
    k: int,
)
    requires
        0 <= j < s.len(),
        0 <= k <= s.len(),
        e.1@ == s[j].1@.plus(d),
    ensures
        sum_upto(s.update(j, e), k) == if k > j {
            sum_upto(s, k).plus(d)
        } else {
            sum_upto(s, k)
        },
    decreases k,
{
    if k > 0 {
        lemma_sum_update(s, j, e, d, k - 1);
    }
}

/// Inserting an entry at `p` adds it to every partial sum that reaches it.
proof fn lemma_sum_insert(s: Seq<(LanguageId, Stats)>, p: int, x: (LanguageId, Stats), k: int)
    requires
        0 <= p <= s.len(),
        0 <= k <= s.len() + 1,
    ensures
        sum_upto(s.insert(p, x), k) == if k <= p {
            sum_upto(s, k)
        } else {
            sum_upto(s, k - 1).plus(x.1@)
        },
    decreases k,
{
    if k > 0 {
        lemma_sum_insert(s, p, x, k - 1);
    }
}

/// The index of the entry of `id` in `g`.
fn find_group(g: &Vec<(LanguageId, Stats)>, id: LanguageId) -> (r: Option<usize>)
    ensures
        match r {
            Some(j) => j < g@.len() && g@[j as int].0 == id,
            None => forall|j: int| 0 <= j < g@.len() ==> (#[trigger] g@[j]).0 != id,
        },
{
    let mut j: usize = 0;
    while j < g.len()
        invariant
            j <= g@.len(),
            forall|m: int| 0 <= m < j ==> (#[trigger] g@[m]).0 != id,
        decreases g@.len() - j,
    {
        if g[j].0 == id {
            return Some(j);
        }
        j = j + 1;
    }
    None
}

/// Adding result `k` to an existing entry of its language.
proof fn lemma_group_update(
    before: Seq<(LanguageId, Stats)>,
    rs: Seq<(LanguageId, Stats)>,
    k: int,
    j: int,
    entry: (LanguageId, Stats),
)
    requires
        0 <= k < rs.len(),
        0 <= j < before.len(),
        groups_results(before, rs, k),
        before[j].0 == rs[k].0,
        entry.0 == rs[k].0,
        entry.1@ == before[j].1@.plus(rs[k].1@),
    ensures
        groups_results(before.update(j, entry), rs, k + 1),
{
    reveal(occurs_in);
    reveal(has_entry);
    let after = before.update(j, entry);
    assert forall|i: int, i2: int| 0 <= i < i2 < after.len() implies (#[trigger] after[i]).0
        != (#[trigger] after[i2]).0 by {
        assert(before[i].0 != before[i2].0);
    }
    assert forall|i: int| 0 <= i < after.len() implies (#[trigger] after[i]).1@ == sum_for_upto(
        rs,
        after[i].0,
        k + 1,
    ) by {
        if i != j {
            assert(before[i].0 != before[j].0);
        }
    }
    assert forall|m: int| 0 <= m < k + 1 implies has_entry(after, (#[trigger] rs[m]).0) by {
        if m < k {
            assert(has_entry(before, rs[m].0));
            let i = choose|i: int| 0 <= i < before.len() && (#[trigger] before[i]).0 == rs[m].0;
            assert(after[i].0 == rs[m].0);
        } else {
            assert(after[j].0 == rs[m].0);
        }
    }
    assert forall|i: int| 0 <= i < after.len() implies occurs_in(rs, k + 1, (#[trigger] after[i]).0) by {
        assert(occurs_in(rs, k, before[i].0));
        let m = choose|m: int| 0 <= m < k && (#[trigger] rs[m]).0 == before[i].0;
        assert(rs[m].0 == after[i].0);
    }
}

/// Adding result `k` as the first entry of its language.
proof fn lemma_group_push(before: Seq<(LanguageId, Stats)>, rs: Seq<(LanguageId, Stats)>, k: int)
    requires
        0 <= k < rs.len(),
        groups_results(before, rs, k),
        forall|i: int| 0 <= i < before.len() ==> (#[trigger] before[i]).0 != rs[k].0,
    ensures
        groups_results(before.push(rs[k]), rs, k + 1),
{
    reveal(occurs_in);
    reveal(has_entry);
    let after = before.push(rs[k]);
    let n = before.len() as int;
    assert forall|m: int| 0 <= m < k implies (#[trigger] rs[m]).0 != rs[k].0 by {
        assert(has_entry(before, rs[m].0));
        let i = choose|i: int| 0 <= i < before.len() && (#[trigger] before[i]).0 == rs[m].0;
        assert(before[i].0 != rs[k].0);
    }
    lemma_sum_for_absent(rs, rs[k].0, k);
    assert forall|i: int, i2: int| 0 <= i < i2 < after.len() implies (#[trigger] after[i]).0
        != (#[trigger] after[i2]).0 by {
        if i2 < n {
            assert(before[i].0 != before[i2].0);
        } else {
            assert(before[i].0 != rs[k].0);
        }
    }
    assert forall|i: int| 0 <= i < after.len() implies (#[trigger] after[i]).1@ == sum_for_upto(
        rs,
        after[i].0,
        k + 1,
    ) by {
        if i < n {
            assert(before[i].0 != rs[k].0);
        }
    }
    assert forall|m: int| 0 <= m < k + 1 implies has_entry(after, (#[trigger] rs[m]).0) by {
        if m < k {
            assert(has_entry(before, rs[m].0));
            let i = choose|i: int| 0 <= i < before.len() && (#[trigger] before[i]).0 == rs[m].0;
            assert(after[i].0 == rs[m].0);
        } else {
            assert(after[n].0 == rs[m].0);
        }
    }
    assert forall|i: int| 0 <= i < after.len() implies occurs_in(rs, k + 1, (#[trigger] after[i]).0) by {
        if i < n {
            assert(occurs_in(rs, k, before[i].0));
            let m = choose|m: int| 0 <= m < k && (#[trigger] rs[m]).0 == before[i].0;
            assert(rs[m].0 == after[i].0);
        } else {
            assert(rs[k].0 == after[i].0);
        }
    }
}

/// Adds result `k` to the per-language sums of the first `k` results.
fn add_result(g: &mut Vec<(LanguageId, Stats)>, results: &Vec<(LanguageId, Stats)>, k: usize)
    requires
        k < results@.len(),
        sum_all(results@).fits(),
        groups_results(old(g)@, results@, k as int),
        sum_all(old(g)@) == sum_upto(results@, k as int),
    ensures
        groups_results(final(g)@, results@, k + 1),
        sum_all(final(g)@) == sum_upto(results@, k + 1),
{
    let (id, stats) = results[k];
    let ghost before = g@;
    match find_group(g, id) {
        Some(j) => {
            let mut entry = g[j];
            proof {
                lemma_sum_for_below(results@, id, k + 1);
                lemma_sum_grows(results@, k + 1, results@.len() as int);
            }
            entry.1.add_assign(&stats);
            g.set(j, entry);
            proof {
                lemma_group_update(before, results@, k as int, j as int, entry);
                lemma_sum_update(before, j as int, entry, stats@, before.len() as int);
            }
        },
        None => {
            g.push((id, stats));
            proof {
                lemma_group_push(before, results@, k as int);
                lemma_sum_insert(before, before.len() as int, (id, stats), before.len() as int + 1);
                assert(before.insert(before.len() as int, (id, stats)) == g@);
            }
        },
    }
}

/// Sums the results of each language: one entry per language that has a
/// result, holding the sum of that language's results.
pub fn aggregate(results: &Vec<(LanguageId, Stats)>) -> (g: Vec<(LanguageId, Stats)>)
    requires
        sum_all(results@).fits(),
    ensures
        groups_results(g@, results@, results@.len() as int),
        sum_all(g@) == sum_all(results@),
{
    let mut g: Vec<(LanguageId, Stats)> = Vec::new();
    let mut k: usize = 0;
    while k < results.len()
        invariant
            k <= results@.len(),
            sum_all(results@).fits(),
            groups_results(g@, results@, k as int),
            sum_all(g@) == sum_upto(results@, k as int),
        decreases results@.len() - k,
    {
        add_result(&mut g, results, k);
        k = k + 1;
    }
    g
}

/// A language without results among the first `k` has a zero sum.
proof fn lemma_sum_for_absent(rs: Seq<(LanguageId, Stats)>, id: LanguageId, k: int)
    requires
        0 <= k <= rs.len(),
        forall|m: int| 0 <= m < k ==> (#[trigger] rs[m]).0 != id,
    ensures
        sum_for_upto(rs, id, k) == StatsView::zero(),
    decreases k,
{
    if k > 0 {
        lemma_sum_for_absent(rs, id, k - 1);
    }
}

/// `a` may be listed before `b` in the report: languages with more code come
/// first, and among equal amounts of code the smaller language index.
pub open spec fn listed_before(a: (LanguageId, Stats), b: (LanguageId, Stats)) -> bool {
    ||| a.1.counts.code > b.1.counts.code
    ||| (a.1.counts.code == b.1.counts.code && a.0.index() <= b.0.index())
}

/// The entries of `s` are in report order.
pub open spec fn in_report_order(s: Seq<(LanguageId, Stats)>) -> bool {
    forall|i: int, j: int| 0 <= i < j < s.len() ==> listed_before(#[trigger] s[i], #[trigger] s[j])
}

/// Whether `a` may be listed before `b`.
fn is_listed_before(a: &(LanguageId, Stats), b: &(LanguageId, Stats)) -> (r: bool)
    ensures
        r == listed_before(*a, *b),
{
    if a.1.counts.code != b.1.counts.code {
        a.1.counts.code > b.1.counts.code
    } else {
        !b.0.precedes(&a.0)
    }
}

/// `a` and `b` take the same place in the report order: the same language
/// with the same amount of code.
pub open spec fn same_place(a: (LanguageId, Stats), b: (LanguageId, Stats)) -> bool {
    a.0 == b.0 && a.1.counts.code == b.1.counts.code
}

/// The entries that take the same place as `x`.
pub open spec fn same_place_as(x: (LanguageId, Stats)) -> spec_fn((LanguageId, Stats)) -> bool {
    |e: (LanguageId, Stats)| same_place(e, x)
}

/// Inserting `y` after the entries listed before it and before those listed
/// strictly after it adds `y` at the end of the entries of its place.
proof fn lemma_insert_stable(
    r: Seq<(LanguageId, Stats)>,
    p: int,
    y: (LanguageId, Stats),
    x: (LanguageId, Stats),
)
    requires
        0 <= p <= r.len(),
        in_report_order(r),
        forall|q: int| 0 <= q < p ==> listed_before(#[trigger] r[q], y),
        p < r.len() ==> !listed_before(r[p], y),
    ensures
        r.insert(p, y).filter(same_place_as(x)) == if same_place(y, x) {
            r.filter(same_place_as(x)).push(y)
        } else {
            r.filter(same_place_as(x))
        },
{
    broadcast use Seq::filter_distributes_over_add, Seq::lemma_filter_push;

    let pred = same_place_as(x);
    let a = r.take(p);
    let b = r.skip(p);
    assert(r.insert(p, y) =~= a.push(y) + b);
    assert(r =~= a + b);
    assert((a.push(y) + b).filter(pred) == a.push(y).filter(pred) + b.filter(pred));
    assert((a + b).filter(pred) == a.filter(pred) + b.filter(pred));
    if same_place(y, x) {
        assert forall|j: int| 0 <= j < b.len() implies !pred(#[trigger] b[j]) by {
            if j > 0 {
                assert(listed_before(r[p], r[p + j]));
            }
        }
        assert(b.all(|e: (LanguageId, Stats)| !pred(e)));
        b.lemma_all_neg_filter_empty(pred);
        assert(b.filter(pred) =~= Seq::<(LanguageId, Stats)>::empty());
        assert(a.filter(pred).push(y) + b.filter(pred) =~= a.filter(pred).push(y));
        assert(a.filter(pred) + b.filter(pred) =~= a.filter(pred));
    }
}

/// Orders the per-language statistics for the report: by amount of code,
/// largest first, then by language index. Entries that compare equal keep
/// their order.
pub fn sort_for_report(g: Vec<(LanguageId, Stats)>) -> (r: Vec<(LanguageId, Stats)>)
    ensures
        r@.to_multiset() == g@.to_multiset(),
        in_report_order(r@),
        sum_all(r@) == sum_all(g@),
        forall|x: (LanguageId, Stats)|
            #[trigger] r@.filter(same_place_as(x)) == g@.filter(same_place_as(x)),
{
    let mut r: Vec<(LanguageId, Stats)> = Vec::new();
    let mut i: usize = 0;
    assert(r@ == g@.subrange(0, 0));
    proof {
        assert forall|z: (LanguageId, Stats)| #[trigger] r@.filter(same_place_as(z))
            == g@.subrange(0, 0).filter(same_place_as(z)) by {
            reveal(Seq::filter);
        }
    }
    while i < g.len()
        invariant
            i <= g@.len(),
            r@.to_multiset() == g@.subrange(0, i as int).to_multiset(),
            in_report_order(r@),
            sum_all(r@) == sum_upto(g@, i as int),
            forall|x: (LanguageId, Stats)|
                #[trigger] r@.filter(same_place_as(x)) == g@.subrange(0, i as int).filter(
                    same_place_as(x),
                ),
        decreases g@.len() - i,
    {
        let x = g[i];
        let mut p: usize = 0;
        while p < r.len() && is_listed_before(&r[p], &x)
            invariant
                p <= r@.len(),
                forall|q: int| 0 <= q < p ==> listed_before(#[trigger] r@[q], x),
            decreases r@.len() - p,
        {
            p = p + 1;
        }
        let ghost old_r = r@;
        r.insert(p, x);
        proof {
            assert(g@.subrange(0, i + 1) == g@.subrange(0, i as int).push(x));
            lemma_sum_insert(old_r, p as int, x, old_r.len() as int + 1);
            assert forall|z: (LanguageId, Stats)| #[trigger] r@.filter(same_place_as(z))
                == g@.subrange(0, i + 1).filter(same_place_as(z)) by {
                lemma_insert_stable(old_r, p as int, x, z);
                g@.subrange(0, i as int).lemma_filter_push(x, same_place_as(z));
            }
            assert forall|a: int, b: int| 0 <= a < b < r@.len() implies listed_before(
                #[trigger] r@[a],
                #[trigger] r@[b],
            ) by {
                if b < p {
                    assert(listed_before(old_r[a], old_r[b]));
                } else if b == p {
                    assert(listed_before(old_r[a], x));
                } else if a < p {
                    assert(listed_before(old_r[a], x));
                    assert(!listed_before(old_r[p as int], x));
                    assert(listed_before(old_r[p as int], old_r[b - 1]) || p == b - 1);
                } else if a == p {
                    assert(!listed_before(old_r[p as int], x));
                    assert(listed_before(old_r[p as int], old_r[b - 1]) || p == b - 1);
                } else {
                    assert(listed_before(old_r[a - 1], old_r[b - 1]));
                }
            }
        }
        i = i + 1;
    }
    assert(g@.subrange(0, g@.len() as int) == g@);
    r
}

/// A partial sum that does not fit leaves the whole sum without a fit.
proof fn lemma_partial_overflow(rs: Seq<(LanguageId, Stats)>, k: int)
    requires
        0 <= k <= rs.len(),
        !sum_upto(rs, k).fits(),
    ensures
        !sum_all(rs).fits(),
{
    lemma_sum_grows(rs, k, rs.len() as int);
}

/// The sum of the statistics of all entries, or `None` when a field of the sum
/// does not fit its integer type.
pub fn sum_stats(entries: &Vec<(LanguageId, Stats)>) -> (r: Option<Stats>)
    ensures
        match r {
            Some(t) => sum_all(entries@).fits() && t@ == sum_all(entries@),
            None => !sum_all(entries@).fits(),
        },
{
    let mut total = Stats::default();
    let mut k: usize = 0;
    while k < entries.len()
        invariant
            k <= entries@.len(),
            total@ == sum_upto(entries@, k as int),
        decreases entries@.len() - k,
    {
        let e = entries[k].1;
        let ghost next = sum_upto(entries@, k + 1);
        let files = match total.files.checked_add(e.files) {
            Some(v) => v,
            None => {
                proof {
                    lemma_partial_overflow(entries@, k + 1);
                }
                return None;
            },
        };
        let bytes = match total.bytes.checked_add(e.bytes) {
            Some(v) => v,
            None => {
                proof {
                    lemma_partial_overflow(entries@, k + 1);
                }
                return None;
            },
        };
        let lines = match total.counts.lines.checked_add(e.counts.lines) {
            Some(v) => v,
            None => {
                proof {
                    lemma_partial_overflow(entries@, k + 1);
                }
                return None;
            },
        };
        let blanks = match total.counts.blanks.checked_add(e.counts.blanks) {
            Some(v) => v,
            None => {
                proof {
                    lemma_partial_overflow(entries@, k + 1);
                }
                return None;
            },
        };
        let comments = match total.counts.comments.checked_add(e.counts.comments) {
            Some(v) => v,
            None => {
                proof {
                    lemma_partial_overflow(entries@, k + 1);
                }
                return None;
            },
        };
        let code = match total.counts.code.checked_add(e.counts.code) {
            Some(v) => v,
            None => {
                proof {
                    lemma_partial_overflow(entries@, k + 1);
                }
                return None;
            },
        };
        total = Stats { files, bytes, counts: Counts { lines, blanks, comments, code } };
        k = k + 1;
    }
    Some(total)
}

/// How a byte count is shown: as a plain number below 1024, in kilobytes
/// below 1024 * 1024, in megabytes above.
#[derive(Debug, Clone, Copy, PartialEq, Eq, Structural)]
pub enum ByteUnit {
    Bytes,
    Kilobytes,
    Megabytes,
}

/// The unit in which a byte count is shown.
pub fn byte_unit(bytes: u64) -> (r: ByteUnit)
    ensures
        r == (if bytes < 1024 {
            ByteUnit::Bytes
        } else if bytes < 1024 * 1024 {
            ByteUnit::Kilobytes
        } else {
            ByteUnit::Megabytes
        }),
{
    if bytes < 1024 {
        ByteUnit::Bytes
    } else if bytes < 1024 * 1024 {
        ByteUnit::Kilobytes
    } else {
        ByteUnit::Megabytes
    }
}

} // verus!
