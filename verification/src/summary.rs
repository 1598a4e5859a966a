//! The summary reporter: sorts the finished ledger by (tier, name), adds up
//! the total crafting time charged per whole batch, and renders the report
//! text.
//!
//! The sort is stable and direction-aware: descending order swaps the
//! comparison operands instead of reversing the sorted list, so ties on the
//! primary key are ordered by the swapped secondary comparison as well.

use vstd::prelude::*;
use vstd::seq_lib::group_to_multiset_ensures;
use crate::amount::spec_ceil;
use crate::ledger::{CraftingData, Ledger, RowModel};
use crate::render::{spec_amount_display, spec_tier_display, spec_render_time, amount_display,
    tier_display, render_time};
use crate::strutil::{lex_cmp, str_cmp, spec_pad_right, spec_trim, spec_indent_lines, pad_right,
    trim_str, indent_lines, lemma_lex_cmp_range, lemma_lex_cmp_antisym, lemma_lex_cmp_trans};
use crate::time::{CraftingTime, spec_from_secs};

verus! {

/// The view of a row sequence.
pub open spec fn rows_view(s: Seq<CraftingData>) -> Seq<RowModel> {
    s.map_values(|r: CraftingData| r@)
}

/// Report order: by tier first, then by display name, both ascending.
pub open spec fn entry_le(a: RowModel, b: RowModel) -> bool {
    a.tier < b.tier || (a.tier == b.tier && lex_cmp(a.name, b.name) <= 0)
}

/// Direction-aware order: ascending compares `(a, b)`, descending swaps the
/// operands and compares `(b, a)` — it does not merely reverse the result.
pub open spec fn entry_le_dir(a: RowModel, b: RowModel, ascending: bool) -> bool {
    if ascending {
        entry_le(a, b)
    } else {
        entry_le(b, a)
    }
}

/// The order is total.
pub proof fn lemma_entry_le_total(a: RowModel, b: RowModel)
    ensures
        entry_le(a, b) || entry_le(b, a),
{
    lemma_lex_cmp_range(a.name, b.name);
    lemma_lex_cmp_antisym(a.name, b.name);
}

/// The order is transitive.
pub proof fn lemma_entry_le_trans(a: RowModel, b: RowModel, c: RowModel)
    requires
        entry_le(a, b),
        entry_le(b, c),
    ensures
        entry_le(a, c),
{
    if a.tier == b.tier && b.tier == c.tier {
        lemma_lex_cmp_trans(a.name, b.name, c.name);
    }
}

/// Stable insertion: the new row goes after every row that sorts no later
/// than it.
pub open spec fn spec_insert_sorted(s: Seq<RowModel>, x: RowModel, ascending: bool) -> Seq<
    RowModel,
>
    decreases s.len(),
{
    if s.len() > 0 && entry_le_dir(s[0], x, ascending) {
        seq![s[0]] + spec_insert_sorted(s.drop_first(), x, ascending)
    } else {
        seq![x] + s
    }
}

/// Stable insertion sort, left to right.
pub open spec fn spec_sort(s: Seq<RowModel>, ascending: bool) -> Seq<RowModel>
    decreases s.len(),
{
    if s.len() == 0 {
        Seq::empty()
    } else {
        spec_insert_sorted(spec_sort(s.drop_last(), ascending), s.last(), ascending)
    }
}

proof fn lemma_insert_sorted_at(s: Seq<RowModel>, x: RowModel, ascending: bool, i: int)
    requires
        0 <= i <= s.len(),
        forall|j: int| 0 <= j < i ==> entry_le_dir(#[trigger] s[j], x, ascending),
        i < s.len() ==> !entry_le_dir(s[i], x, ascending),
    ensures
        spec_insert_sorted(s, x, ascending) == s.take(i) + seq![x] + s.skip(i),
    decreases i,
{
    if i == 0 {
        assert(seq![x] + s =~= s.take(0) + seq![x] + s.skip(0));
    } else {
        lemma_insert_sorted_at(s.drop_first(), x, ascending, i - 1);
        assert(seq![s[0]] + (s.drop_first().take(i - 1) + seq![x] + s.drop_first().skip(i - 1))
            =~= s.take(i) + seq![x] + s.skip(i));
    }
}

/// Inserting into a sorted sequence keeps it sorted.
proof fn lemma_insert_preserves_sorted(s: Seq<RowModel>, x: RowModel, ascending: bool)
    requires
        forall|p: int, q: int|
            0 <= p < q < s.len() ==> entry_le_dir(#[trigger] s[p], #[trigger] s[q], ascending),
    ensures
        ({
            let t = spec_insert_sorted(s, x, ascending);
            forall|p: int, q: int|
                0 <= p < q < t.len() ==> entry_le_dir(#[trigger] t[p], #[trigger] t[q], ascending)
        }),
    decreases s.len(),
{
    let t = spec_insert_sorted(s, x, ascending);
    if s.len() > 0 && entry_le_dir(s[0], x, ascending) {
        let t1 = spec_insert_sorted(s.drop_first(), x, ascending);
        lemma_insert_preserves_sorted(s.drop_first(), x, ascending);
        // s[0] sorts no later than x and than every row of the tail.
        assert forall|p: int, q: int| 0 <= p < q < t.len() implies entry_le_dir(
            #[trigger] t[p], #[trigger] t[q], ascending) by {
            if p == 0 {
                assert(t[0] == s[0]);
                lemma_insert_member(s.drop_first(), x, ascending, q - 1);
                let u = t1[q - 1];
                assert(t[q] == u);
                if u == x {
                } else {
                    let w = choose|w: int|
                        0 <= w < s.drop_first().len() && s.drop_first()[w] == u;
                    assert(s[w + 1] == u);
                }
            } else {
                assert(t[p] == t1[p - 1] && t[q] == t1[q - 1]);
            }
        }
    } else {
        assert forall|p: int, q: int| 0 <= p < q < t.len() implies entry_le_dir(
            #[trigger] t[p], #[trigger] t[q], ascending) by {
            if p == 0 {
                assert(t[0] == x);
                assert(t[q] == s[q - 1]);
                if s.len() > 0 {
                    if q - 1 == 0 {
                        lemma_entry_le_total_dir(s[0], x, ascending);
                    } else {
                        lemma_entry_le_total_dir(s[0], x, ascending);
                        lemma_entry_le_trans_dir(x, s[0], s[q - 1], ascending);
                    }
                }
            } else {
                assert(t[p] == s[p - 1] && t[q] == s[q - 1]);
            }
        }
    }
}

proof fn lemma_entry_le_total_dir(a: RowModel, b: RowModel, ascending: bool)
    requires
        !entry_le_dir(a, b, ascending),
    ensures
        entry_le_dir(b, a, ascending),
{
    lemma_entry_le_total(a, b);
}

proof fn lemma_entry_le_trans_dir(a: RowModel, b: RowModel, c: RowModel, ascending: bool)
    requires
        entry_le_dir(a, b, ascending),
        entry_le_dir(b, c, ascending),
    ensures
        entry_le_dir(a, c, ascending),
{
    if ascending {
        lemma_entry_le_trans(a, b, c);
    } else {
        lemma_entry_le_trans(c, b, a);
    }
}

/// Every row of an insertion result is the inserted row or one of the
/// original rows.
proof fn lemma_insert_member(s: Seq<RowModel>, x: RowModel, ascending: bool, k: int)
    requires
        0 <= k < spec_insert_sorted(s, x, ascending).len(),
    ensures
        spec_insert_sorted(s, x, ascending)[k] == x || exists|w: int|
            0 <= w < s.len() && s[w] == spec_insert_sorted(s, x, ascending)[k],
    decreases s.len(),
{
    let t = spec_insert_sorted(s, x, ascending);
    if s.len() > 0 && entry_le_dir(s[0], x, ascending) {
        if k == 0 {
            assert(s[0] == t[0]);
        } else {
            lemma_insert_member(s.drop_first(), x, ascending, k - 1);
            let t1 = spec_insert_sorted(s.drop_first(), x, ascending);
            assert(t[k] == t1[k - 1]);
            if t1[k - 1] != x {
                let w = choose|w: int| 0 <= w < s.drop_first().len() && s.drop_first()[w] == t1[k
                    - 1];
                assert(s[w + 1] == t[k]);
            }
        }
    } else {
        if k > 0 {
            assert(t[k] == s[k - 1]);
        }
    }
}

/// Sorting law: the result is ordered by the direction-aware comparison —
/// descending order is the operand-swapped comparison, not a reversal of
/// the ascending result.
pub proof fn lemma_sort_sorted(s: Seq<RowModel>, ascending: bool)
    ensures
        ({
            let t = spec_sort(s, ascending);
            forall|p: int, q: int|
                0 <= p < q < t.len() ==> entry_le_dir(#[trigger] t[p], #[trigger] t[q], ascending)
        }),
    decreases s.len(),
{
    if s.len() > 0 {
        lemma_sort_sorted(s.drop_last(), ascending);
        lemma_insert_preserves_sorted(spec_sort(s.drop_last(), ascending), s.last(), ascending);
    }
}

/// Sorting law: the result is a permutation of the input.
pub proof fn lemma_sort_permutes(s: Seq<RowModel>, ascending: bool)
    ensures
        spec_sort(s, ascending).to_multiset() == s.to_multiset(),
    decreases s.len(),
{
    broadcast use group_to_multiset_ensures;

    if s.len() > 0 {
        lemma_sort_permutes(s.drop_last(), ascending);
        lemma_insert_multiset(spec_sort(s.drop_last(), ascending), s.last(), ascending);
        assert(s.drop_last().push(s.last()) =~= s);
    }
}

proof fn lemma_insert_multiset(s: Seq<RowModel>, x: RowModel, ascending: bool)
    ensures
        spec_insert_sorted(s, x, ascending).to_multiset() == s.to_multiset().insert(x),
    decreases s.len(),
{
    broadcast use group_to_multiset_ensures;

    if s.len() > 0 && entry_le_dir(s[0], x, ascending) {
        lemma_insert_multiset(s.drop_first(), x, ascending);
        let t1 = spec_insert_sorted(s.drop_first(), x, ascending);
        assert(seq![s[0]] + t1 =~= t1.insert(0, s[0]));
        assert(seq![s[0]] + s.drop_first() =~= s);
        assert((seq![s[0]] + s.drop_first()).to_multiset() == s.drop_first().to_multiset().insert(
            s[0],
        )) by {
            assert(seq![s[0]] + s.drop_first() =~= s.drop_first().insert(0, s[0]));
        }
        assert(t1.insert(0, s[0]).to_multiset() == t1.to_multiset().insert(s[0]));
    } else {
        assert(seq![x] + s =~= s.insert(0, x));
    }
}

/// Insert a row at its stable sorted position.
#[verifier::loop_isolation(false)]
fn insert_sorted(v: &mut Vec<CraftingData>, x: CraftingData, ascending: bool)
    requires
        forall|k: int| 0 <= k < old(v)@.len() ==> (#[trigger] old(v)@[k]).amount.wf(),
        x@.amount.wf(),
    ensures
        rows_view(final(v)@) == spec_insert_sorted(rows_view(old(v)@), x@, ascending),
        forall|k: int| 0 <= k < final(v)@.len() ==> (#[trigger] final(v)@[k]).amount.wf(),
{
    let n = v.len();
    let mut i: usize = 0;
    while i < n
        invariant
            i <= n,
            v@ == old(v)@,
            forall|j: int| 0 <= j < i ==> entry_le_dir(rows_view(v@)[j], x@, ascending),
        decreases n - i,
    {
        let cont = {
            let a = &v[i];
            if ascending {
                if a.tier != x.tier {
                    a.tier < x.tier
                } else {
                    str_cmp(a.name.as_str(), x.name.as_str()) <= 0
                }
            } else {
                if x.tier != a.tier {
                    x.tier < a.tier
                } else {
                    str_cmp(x.name.as_str(), a.name.as_str()) <= 0
                }
            }
        };
        if !cont {
            break;
        }
        i = i + 1;
    }
    proof {
        lemma_insert_sorted_at(rows_view(old(v)@), x@, ascending, i as int);
    }
    v.insert(i, x);
    proof {
        assert(rows_view(v@) =~= rows_view(old(v)@).take(i as int) + seq![x@] + rows_view(
            old(v)@).skip(i as int));
    }
}

/// Two rows carry the same sort key.
pub open spec fn same_key(a: RowModel, b: RowModel) -> bool {
    a.tier == b.tier && a.name == b.name
}

/// The rows carrying the same key as `r0`.
pub open spec fn same_key_pred(r0: RowModel) -> spec_fn(RowModel) -> bool {
    |r: RowModel| same_key(r, r0)
}

/// Rows with equal keys compare both ways.
proof fn lemma_same_key_le(a: RowModel, b: RowModel, ascending: bool)
    requires
        same_key(a, b),
    ensures
        entry_le_dir(a, b, ascending),
        entry_le_dir(b, a, ascending),
{
    crate::strutil::lemma_lex_cmp_self(a.name);
}

proof fn lemma_filter_singleton(x: RowModel, r0: RowModel)
    ensures
        seq![x].filter(same_key_pred(r0)) == if same_key(x, r0) {
            seq![x]
        } else {
            Seq::<RowModel>::empty()
        },
{
    reveal(Seq::filter);
    let s = seq![x];
    assert(s.drop_last() =~= Seq::<RowModel>::empty());
    assert(s.drop_last().filter(same_key_pred(r0)) =~= Seq::<RowModel>::empty());
    if same_key(x, r0) {
        assert(s.filter(same_key_pred(r0)) =~= seq![x]);
    } else {
        assert(s.filter(same_key_pred(r0)) =~= Seq::<RowModel>::empty());
    }
}

/// A sequence with no row of the key filters to nothing.
proof fn lemma_filter_none(s: Seq<RowModel>, r0: RowModel)
    requires
        forall|j: int| 0 <= j < s.len() ==> !same_key(#[trigger] s[j], r0),
    ensures
        s.filter(same_key_pred(r0)) == Seq::<RowModel>::empty(),
    decreases s.len(),
{
    reveal(Seq::filter);
    if s.len() == 0 {
        assert(s.filter(same_key_pred(r0)) =~= Seq::<RowModel>::empty());
    } else {
        lemma_filter_none(s.drop_last(), r0);
        assert(!same_key(s.last(), r0));
    }
}

/// Stable insertion keeps the key class in order: the inserted row lands
/// after every present row of its own key.
proof fn lemma_insert_stable(s: Seq<RowModel>, x: RowModel, ascending: bool, r0: RowModel)
    requires
        forall|p: int, q: int|
            0 <= p < q < s.len() ==> entry_le_dir(#[trigger] s[p], #[trigger] s[q], ascending),
    ensures
        spec_insert_sorted(s, x, ascending).filter(same_key_pred(r0)) == if same_key(x, r0) {
            s.filter(same_key_pred(r0)).push(x)
        } else {
            s.filter(same_key_pred(r0))
        },
    decreases s.len(),
{
    broadcast use vstd::seq_lib::group_filter_ensures;

    let pred = same_key_pred(r0);
    lemma_filter_singleton(x, r0);
    if s.len() > 0 && entry_le_dir(s[0], x, ascending) {
        assert(forall|p: int, q: int|
            0 <= p < q < s.drop_first().len() ==> entry_le_dir(#[trigger] s.drop_first()[p], (
            #[trigger] s.drop_first()[q]), ascending)) by {
            assert(forall|p: int|
                0 <= p < s.drop_first().len() ==> s.drop_first()[p] == s[p + 1]);
        }
        lemma_insert_stable(s.drop_first(), x, ascending, r0);
        lemma_filter_singleton(s[0], r0);
        let t = spec_insert_sorted(s.drop_first(), x, ascending);
        Seq::filter_distributes_over_add(seq![s[0]], t, pred);
        Seq::filter_distributes_over_add(seq![s[0]], s.drop_first(), pred);
        assert(seq![s[0]] + s.drop_first() =~= s);
        if same_key(x, r0) {
            Seq::push_distributes_over_add(
                seq![s[0]].filter(pred),
                s.drop_first().filter(pred),
                x,
            );
        }
    } else {
        Seq::filter_distributes_over_add(seq![x], s, pred);
        if same_key(x, r0) {
            // no present row shares the key: the first row does not sort
            // before x, so by transitivity none does.
            assert forall|j: int| 0 <= j < s.len() implies !same_key(#[trigger] s[j], r0) by {
                if same_key(s[j], r0) {
                    lemma_same_key_le(s[j], x, ascending);
                    if j > 0 {
                        lemma_entry_le_trans_dir(s[0], s[j], x, ascending);
                    }
                }
            }
            lemma_filter_none(s, r0);
            assert(seq![x] + s.filter(pred) =~= s.filter(pred).push(x));
        } else {
            assert(Seq::<RowModel>::empty() + s.filter(pred) =~= s.filter(pred));
        }
    }
}

/// Sorting law (stability): for any key, the rows carrying it appear in the
/// sorted result exactly in their original relative order.
pub proof fn lemma_sort_stable(s: Seq<RowModel>, ascending: bool, r0: RowModel)
    ensures
        spec_sort(s, ascending).filter(same_key_pred(r0)) == s.filter(same_key_pred(r0)),
    decreases s.len(),
{
    reveal(Seq::filter);
    let pred = same_key_pred(r0);
    if s.len() == 0 {
        assert(spec_sort(s, ascending) =~= s);
    } else {
        lemma_sort_stable(s.drop_last(), ascending, r0);
        lemma_sort_sorted(s.drop_last(), ascending);
        lemma_insert_stable(spec_sort(s.drop_last(), ascending), s.last(), ascending, r0);
        if same_key(s.last(), r0) {
            assert(s.filter(pred) == s.drop_last().filter(pred).push(s.last()));
        } else {
            assert(s.filter(pred) == s.drop_last().filter(pred));
        }
    }
}

/// Stable sort of the ledger rows by (tier, name) in the given direction.
#[verifier::loop_isolation(false)]
pub fn sort_entries(rows: &Vec<CraftingData>, ascending: bool) -> (r: Vec<CraftingData>)
    requires
        forall|k: int| 0 <= k < rows@.len() ==> (#[trigger] rows@[k]).amount.wf(),
    ensures
        rows_view(r@) == spec_sort(rows_view(rows@), ascending),
        forall|k: int| 0 <= k < r@.len() ==> (#[trigger] r@[k]).amount.wf(),
{
    let mut out: Vec<CraftingData> = Vec::new();
    let n = rows.len();
    let mut i: usize = 0;
    proof {
        assert(rows_view(out@) =~= Seq::<RowModel>::empty());
        assert(rows_view(rows@).take(0) =~= Seq::<RowModel>::empty());
    }
    while i < n
        invariant
            i <= n,
            rows_view(out@) == spec_sort(rows_view(rows@).take(i as int), ascending),
            forall|k: int| 0 <= k < out@.len() ==> (#[trigger] out@[k]).amount.wf(),
        decreases n - i,
    {
        insert_sorted(&mut out, rows[i].clone(), ascending);
        proof {
            let sv = rows_view(rows@);
            assert(sv.take(i + 1).drop_last() =~= sv.take(i as int));
            assert(sv.take(i + 1).last() == rows@[i as int]@);
        }
        i = i + 1;
    }
    proof {
        assert(rows_view(rows@).take(n as int) =~= rows_view(rows@));
    }
    out
}

impl Clone for CraftingData {
    /// A clone reads back the same row.
    fn clone(&self) -> (r: Self)
        ensures
            r@ == self@,
    {
        CraftingData {
            id: self.id.clone(),
            name: self.name.clone(),
            tier: self.tier,
            amount: self.amount,
            time_per_part: self.time_per_part,
        }
    }
}

/// The grand total: over all rows, `ceil(amount)` whole batches each paid
/// at the row's per-batch time; `None` when the sum leaves `u64`.
pub open spec fn spec_total_time(s: Seq<RowModel>) -> Option<int>
    decreases s.len(),
{
    if s.len() == 0 {
        Some(0)
    } else {
        match spec_total_time(s.drop_last()) {
            None => None,
            Some(acc) => {
                let add = spec_ceil(s.last().amount) * s.last().time_per_part;
                if add > u64::MAX || acc + add > u64::MAX {
                    None
                } else {
                    Some(acc + add)
                }
            },
        }
    }
}

proof fn lemma_total_none_persists(s: Seq<RowModel>, i: int)
    requires
        0 <= i <= s.len(),
        spec_total_time(s.take(i)) is None,
    ensures
        spec_total_time(s) is None,
    decreases s.len() - i,
{
    if i < s.len() {
        assert(s.take(i + 1).drop_last() =~= s.take(i));
        lemma_total_none_persists(s, i + 1);
    } else {
        assert(s.take(i) =~= s);
    }
}

/// Every row's own time charge is bounded by the grand total.
pub proof fn lemma_total_bounds(s: Seq<RowModel>, t: int)
    requires
        spec_total_time(s) == Some(t),
        forall|k: int| 0 <= k < s.len() ==> (#[trigger] s[k]).amount.wf(),
    ensures
        0 <= t <= u64::MAX,
        forall|k: int|
            0 <= k < s.len() ==> 0 <= spec_ceil((#[trigger] s[k]).amount) * s[k].time_per_part
                <= t,
    decreases s.len(),
{
    if s.len() == 0 {
    } else {
        let acc = spec_total_time(s.drop_last()).unwrap();
        lemma_total_bounds(s.drop_last(), acc);
        let last = s.last();
        assert(spec_ceil(last.amount) >= 0) by {
            vstd::arithmetic::div_mod::lemma_div_pos_is_pos(last.amount.num as int,
                last.amount.den as int);
        }
        assert(spec_ceil(last.amount) * last.time_per_part >= 0) by (nonlinear_arith)
            requires spec_ceil(last.amount) >= 0, last.time_per_part >= 0;
        assert forall|k: int| 0 <= k < s.len() implies 0 <= spec_ceil((
        #[trigger] s[k]).amount) * s[k].time_per_part <= t by {
            if k < s.len() - 1 {
                assert(s.drop_last()[k] == s[k]);
            }
        }
    }
}

/// Add up the total crafting time over the rows; `None` when it would not
/// fit.
#[verifier::loop_isolation(false)]
pub fn total_time(rows: &Vec<CraftingData>) -> (r: Option<u64>)
    requires
        forall|k: int| 0 <= k < rows@.len() ==> (#[trigger] rows@[k]).amount.wf(),
    ensures
        match spec_total_time(rows_view(rows@)) {
            Some(t) => r == Some(t as u64) && 0 <= t <= u64::MAX,
            None => r is None,
        },
{
    let n = rows.len();
    let mut acc: u64 = 0;
    let mut i: usize = 0;
    proof {
        assert(rows_view(rows@).take(0) =~= Seq::<RowModel>::empty());
    }
    while i < n
        invariant
            i <= n,
            spec_total_time(rows_view(rows@).take(i as int)) == Some(acc as int),
        decreases n - i,
    {
        let count = rows[i].amount.ceil_units();
        let ghost sv = rows_view(rows@);
        proof {
            assert(sv.take(i + 1).drop_last() =~= sv.take(i as int));
            assert(sv.take(i + 1).last() == rows@[i as int]@);
        }
        let add = match count.checked_mul(rows[i].time_per_part) {
            None => {
                proof {
                    lemma_total_none_persists(sv, i + 1);
                }
                return None;
            },
            Some(p) => p,
        };
        acc = match acc.checked_add(add) {
            None => {
                proof {
                    lemma_total_none_persists(sv, i + 1);
                }
                return None;
            },
            Some(a) => a,
        };
        i = i + 1;
    }
    proof {
        assert(rows_view(rows@).take(n as int) =~= rows_view(rows@));
    }
    Some(acc)
}

/// The details block for one row: its amount line, then — only when its
/// total time charge is non-zero — the decomposed time for all copies and
/// for a single copy, indented.
pub open spec fn spec_detail_entry(row: RowModel) -> Seq<char> {
    let amt = spec_amount_display(row.amount);
    let line1 = if row.amount.num % row.amount.den == 0 {
        spec_pad_right(amt, 6) + (" part(s)  ")@ + spec_pad_right(row.name, 20) + (": [Tier: ")@
            + spec_tier_display(row.tier) + ("]\n")@
    } else {
        amt + (" part(s)  ")@ + spec_pad_right(row.name, 20) + (": [Tier: ")@ + spec_tier_display(
            row.tier) + ("]\n")@
    };
    let charge = spec_ceil(row.amount) * row.time_per_part;
    if charge > 0 {
        line1 + ("       total:\n")@ + spec_pad_right(
            spec_indent_lines(spec_render_time(spec_from_secs(charge as u64)), true), 8) + (
        "\n")@ + ("       per part:\n")@ + spec_pad_right(
            spec_indent_lines(spec_render_time(spec_from_secs(row.time_per_part)), true), 8) + (
        "\n")@
    } else {
        line1
    }
}

/// The details blocks of all rows, in order.
pub open spec fn spec_details(s: Seq<RowModel>) -> Seq<char>
    decreases s.len(),
{
    if s.len() == 0 {
        Seq::empty()
    } else {
        spec_details(s.drop_last()) + spec_detail_entry(s.last())
    }
}

fn render_detail_entry(row: &CraftingData) -> (r: String)
    requires
        row@.amount.wf(),
        spec_ceil(row@.amount) * row@.time_per_part <= u64::MAX,
        0 <= spec_ceil(row@.amount) * row@.time_per_part,
    ensures
        r@ == spec_detail_entry(row@),
{
    let mut out = String::new();
    let amt = amount_display(row.amount);
    if row.amount.num % row.amount.den == 0 {
        let p = pad_right(amt, 6);
        out.append(p.as_str());
    } else {
        out.append(amt.as_str());
    }
    out.append(" part(s)  ");
    let p = pad_right(row.name.clone(), 20);
    out.append(p.as_str());
    out.append(": [Tier: ");
    let t = tier_display(row.tier);
    out.append(t.as_str());
    out.append("]\n");
    let count = row.amount.ceil_units();
    let charge = count * row.time_per_part;
    if charge > 0 {
        out.append("       total:\n");
        let all = pad_right(indent_lines(render_time(&CraftingTime::from_secs(charge))), 8);
        out.append(all.as_str());
        out.append("\n");
        out.append("       per part:\n");
        let one = pad_right(indent_lines(render_time(&CraftingTime::from_secs(
            row.time_per_part))), 8);
        out.append(one.as_str());
        out.append("\n");
    }
    proof {
        assert(out@ =~= spec_detail_entry(row@));
    }
    out
}

/// The full report for a finished ledger: the optional details section,
/// the separators, and the decomposed grand total for `name`; `None` when
/// the grand total does not fit a `u64` second count.
/// The banner above the details section.
pub open spec fn spec_details_header() -> Seq<char> {
    ("===========================================================\n")@ + (
    "===========================================================\n")@ + (
    "========================= DETAILS =========================\n")@ + (
    "===========================================================\n")@ + (
    "===========================================================\n")@
}

/// The closing block: separators and the decomposed grand total for `name`.
pub open spec fn spec_footer(name: Seq<char>, total: u64) -> Seq<char> {
    ("\n")@ + (
    "================================================================================\n")@ + (
    "================================================================================\n")@ + (
    "\n")@ + ("Total time for \"")@ + name + ("\"\n")@ + spec_trim(
        spec_render_time(spec_from_secs(total))) + ("\n")@
}

pub open spec fn spec_summary(name: Seq<char>, rows: Seq<RowModel>, ascending: bool,
    details: bool) -> Option<Seq<char>> {
    let sorted = spec_sort(rows, ascending);
    match spec_total_time(sorted) {
        None => None,
        Some(total) => {
            let header = if details {
                spec_details_header()
            } else {
                Seq::<char>::empty()
            };
            let body = if details {
                spec_details(sorted)
            } else {
                Seq::<char>::empty()
            };
            Some(header + body + spec_footer(name, total as u64))
        },
    }
}

fn render_details_header(out: &mut String)
    ensures
        final(out)@ == old(out)@ + spec_details_header(),
{
    out.append("===========================================================\n");
    out.append("===========================================================\n");
    out.append("========================= DETAILS =========================\n");
    out.append("===========================================================\n");
    out.append("===========================================================\n");
    proof {
        assert(out@ =~= old(out)@ + spec_details_header());
    }
}

fn render_footer(out: &mut String, name: &String, total: u64)
    ensures
        final(out)@ == old(out)@ + spec_footer(name@, total),
{
    out.append("\n");
    out.append("================================================================================\n");
    out.append("================================================================================\n");
    out.append("\n");
    out.append("Total time for \"");
    out.append(name.as_str());
    out.append("\"\n");
    let rendered = render_time(&CraftingTime::from_secs(total));
    let trimmed = trim_str(rendered.as_str());
    out.append(trimmed);
    out.append("\n");
    proof {
        assert(out@ =~= old(out)@ + spec_footer(name@, total));
    }
}

/// Render the summary report.
#[verifier::loop_isolation(false)]
#[verifier::rlimit(60)]
pub fn render_summary(name: &String, ledger: &Ledger, ascending: bool, details: bool) -> (r:
    Option<String>)
    requires
        ledger.wf(),
    ensures
        match spec_summary(name@, ledger@, ascending, details) {
            None => r is None,
            Some(s) => r is Some && r.unwrap()@ == s,
        },
{
    proof {
        assert forall|k: int| 0 <= k < ledger.rows@.len() implies (
        #[trigger] ledger.rows@[k]).amount.wf() by {
            assert(ledger@[k].amount.wf());
        }
    }
    let sorted = sort_entries(&ledger.rows, ascending);
    let total = match total_time(&sorted) {
        None => {
            return None;
        },
        Some(t) => t,
    };
    proof {
        lemma_total_bounds(rows_view(sorted@), total as int);
    }
    let mut out = String::new();
    if details {
        render_details_header(&mut out);
        let n = sorted.len();
        let mut i: usize = 0;
        let ghost header = out@;
        proof {
            assert(rows_view(sorted@).take(0) =~= Seq::<RowModel>::empty());
            assert(out@ =~= header + spec_details(rows_view(sorted@).take(0)));
        }
        while i < n
            invariant
                i <= n,
                out@ == header + spec_details(rows_view(sorted@).take(i as int)),
            decreases n - i,
        {
            proof {
                let sv = rows_view(sorted@);
                assert(sv[i as int] == sorted@[i as int]@);
                assert(0 <= spec_ceil(sv[i as int].amount) * sv[i as int].time_per_part
                    <= total as int);
            }
            let e = render_detail_entry(&sorted[i]);
            out.append(e.as_str());
            proof {
                let sv = rows_view(sorted@);
                assert(sv.take(i + 1).drop_last() =~= sv.take(i as int));
                assert(sv.take(i + 1).last() == sorted@[i as int]@);
                assert(out@ =~= header + spec_details(sv.take(i + 1)));
            }
            i = i + 1;
        }
        proof {
            assert(rows_view(sorted@).take(n as int) =~= rows_view(sorted@));
        }
    }
    render_footer(&mut out, name, total);
    proof {
        let sorted_m = spec_sort(ledger@, ascending);
        assert(rows_view(sorted@) == sorted_m);
        assert(spec_total_time(sorted_m) == Some(total as int));
        if details {
            assert(out@ =~= spec_details_header() + spec_details(sorted_m) + spec_footer(
                name@, total));
        } else {
            assert(out@ =~= Seq::<char>::empty() + Seq::<char>::empty() + spec_footer(
                name@, total));
        }
    }
    Some(out)
}

} // verus!
