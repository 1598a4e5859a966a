//! The aggregate ledger: per-item totals accumulated over the whole
//! expansion, kept sorted by item identifier for deterministic iteration.

use vstd::prelude::*;
use crate::amount::{Amount, spec_plus, lemma_plus_comm};
use crate::strutil::{lex_cmp, str_cmp};

verus! {

/// Accumulated result for one item across the whole expansion.
#[derive(Debug)]
pub struct CraftingData {
    pub id: String,
    pub name: String,
    pub tier: i32,
    pub amount: Amount,
    pub time_per_part: u64,
}

/// Mathematical image of one ledger row.
pub ghost struct RowModel {
    pub id: Seq<char>,
    pub name: Seq<char>,
    pub tier: int,
    pub amount: Amount,
    pub time_per_part: u64,
}

impl View for CraftingData {
    type V = RowModel;

    open spec fn view(&self) -> RowModel {
        RowModel {
            id: self.id@,
            name: self.name@,
            tier: self.tier as int,
            amount: self.amount,
            time_per_part: self.time_per_part,
        }
    }
}

/// Folding one contribution into the rows: an existing row for the same
/// identifier has the contribution added to its amount (name, tier and time
/// stay as first recorded); otherwise a new row is inserted at its sorted
/// position. `None` when the running amount would no longer fit.
pub open spec fn spec_accumulate(l: Seq<RowModel>, row: RowModel) -> Option<Seq<RowModel>>
    decreases l.len(),
{
    if l.len() == 0 {
        Some(seq![row])
    } else if l[0].id == row.id {
        match spec_plus(l[0].amount, row.amount) {
            None => None,
            Some(a) => Some(
                seq![
                    RowModel {
                        id: l[0].id,
                        name: l[0].name,
                        tier: l[0].tier,
                        amount: a,
                        time_per_part: l[0].time_per_part,
                    },
                ] + l.drop_first(),
            ),
        }
    } else if lex_cmp(l[0].id, row.id) < 0 {
        match spec_accumulate(l.drop_first(), row) {
            None => None,
            Some(t) => Some(seq![l[0]] + t),
        }
    } else {
        Some(seq![row] + l)
    }
}

/// The amount recorded for `id`, when a row carries it (first match).
pub open spec fn spec_amount_of(l: Seq<RowModel>, id: Seq<char>) -> Option<Amount>
    decreases l.len(),
{
    if l.len() == 0 {
        None
    } else if l[0].id == id {
        Some(l[0].amount)
    } else {
        spec_amount_of(l.drop_first(), id)
    }
}

/// The aggregate ledger.
#[derive(Debug)]
pub struct Ledger {
    pub rows: Vec<CraftingData>,
}

impl View for Ledger {
    type V = Seq<RowModel>;

    open spec fn view(&self) -> Seq<RowModel> {
        self.rows@.map_values(|r: CraftingData| r@)
    }
}

impl Ledger {
    /// Amounts are well-formed and rows are sorted by identifier.
    pub open spec fn wf(self) -> bool {
        &&& forall|i: int| 0 <= i < self@.len() ==> (#[trigger] self@[i]).amount.wf()
        &&& forall|i: int, j: int|
            0 <= i < j < self@.len() ==> lex_cmp((#[trigger] self@[i]).id, (
            #[trigger] self@[j]).id) <= 0 && self@[i].id != self@[j].id
    }

    /// An empty ledger.
    pub fn new() -> (r: Ledger)
        ensures
            r.wf(),
            r@.len() == 0,
    {
        Ledger { rows: Vec::new() }
    }

    /// Fold one contribution into the ledger; `false` (ledger unchanged)
    /// when the running amount for the item would no longer fit.
    #[verifier::loop_isolation(false)]
    pub fn accumulate(&mut self, id: &String, name: &String, tier: i32, amount: Amount,
        time_per_part: u64) -> (ok: bool)
        requires
            old(self).wf(),
            amount.wf(),
        ensures
            final(self).wf(),
            ({
                let row = RowModel {
                    id: id@,
                    name: name@,
                    tier: tier as int,
                    amount: amount,
                    time_per_part: time_per_part,
                };
                match spec_accumulate(old(self)@, row) {
                    Some(l2) => ok && final(self)@ == l2,
                    None => !ok && final(self)@ == old(self)@,
                }
            }),
    {
        let ghost row = RowModel {
            id: id@,
            name: name@,
            tier: tier as int,
            amount: amount,
            time_per_part: time_per_part,
        };
        let n = self.rows.len();
        let mut i: usize = 0;
        while i < n
            invariant
                i <= n,
                self.rows@ == old(self).rows@,
                forall|j: int|
                    0 <= j < i ==> (#[trigger] self@[j]).id != row.id && lex_cmp(self@[j].id,
                    row.id) < 0,
            decreases n - i,
        {
            let same = self.rows[i].id == *id;
            if same {
                proof {
                    lemma_accumulate_at_update(self@, row, i as int);
                }
                match self.rows[i].amount.plus(amount) {
                    None => {
                        return false;
                    },
                    Some(a) => {
                        let mut tmp = self.rows.remove(i);
                        tmp.amount = a;
                        let ghost updated = tmp@;
                        self.rows.insert(i, tmp);
                        proof {
                            assert(self@ =~= old(self)@.update(i as int, updated));
                            assert(self@ == spec_accumulate(old(self)@, row).unwrap());
                            assert(forall|k: int|
                                0 <= k < self@.len() ==> (#[trigger] self@[k]).id == old(
                                self)@[k].id);
                        }
                        return true;
                    },
                }
            }
            let c = str_cmp(self.rows[i].id.as_str(), id.as_str());
            if c < 0 {
                i = i + 1;
            } else {
                proof {
                    lemma_accumulate_at_insert(self@, row, i as int);
                }
                self.rows.insert(i, CraftingData {
                    id: id.clone(),
                    name: name.clone(),
                    tier,
                    amount,
                    time_per_part,
                });
                proof {
                    assert(self@ =~= old(self)@.take(i as int) + seq![row] + old(self)@.skip(
                        i as int));
                    lemma_sorted_after_insert(old(self)@, self@, row, i as int);
                }
                return true;
            }
        }
        proof {
            lemma_accumulate_at_insert(self@, row, i as int);
        }
        self.rows.push(CraftingData {
            id: id.clone(),
            name: name.clone(),
            tier,
            amount,
            time_per_part,
        });
        proof {
            assert(self@ =~= old(self)@.take(n as int) + seq![row] + old(self)@.skip(n as int));
            lemma_sorted_after_insert(old(self)@, self@, row, n as int);
        }
        true
    }
}

/// When the first `i` rows all sort strictly before `row` and row `i`
/// carries the same identifier, accumulation updates row `i` in place.
proof fn lemma_accumulate_at_update(l: Seq<RowModel>, row: RowModel, i: int)
    requires
        0 <= i < l.len(),
        forall|j: int| 0 <= j < i ==> (#[trigger] l[j]).id != row.id && lex_cmp(l[j].id, row.id) < 0,
        l[i].id == row.id,
    ensures
        spec_accumulate(l, row) == match spec_plus(l[i].amount, row.amount) {
            None => None::<Seq<RowModel>>,
            Some(a) => Some(
                l.update(i, RowModel {
                    id: l[i].id,
                    name: l[i].name,
                    tier: l[i].tier,
                    amount: a,
                    time_per_part: l[i].time_per_part,
                }),
            ),
        },
    decreases i,
{
    if i == 0 {
        match spec_plus(l[0].amount, row.amount) {
            None => {},
            Some(a) => {
                let updated = RowModel {
                    id: l[0].id,
                    name: l[0].name,
                    tier: l[0].tier,
                    amount: a,
                    time_per_part: l[0].time_per_part,
                };
                assert(seq![updated] + l.drop_first() =~= l.update(0, updated));
            },
        }
    } else {
        lemma_accumulate_at_update(l.drop_first(), row, i - 1);
        match spec_plus(l[i].amount, row.amount) {
            None => {},
            Some(a) => {
                let updated = RowModel {
                    id: l[i].id,
                    name: l[i].name,
                    tier: l[i].tier,
                    amount: a,
                    time_per_part: l[i].time_per_part,
                };
                assert(seq![l[0]] + l.drop_first().update(i - 1, updated) =~= l.update(i, updated));
            },
        }
    }
}

/// When the first `i` rows all sort strictly before `row` and row `i` (if
/// any) does not, accumulation inserts `row` at position `i`.
proof fn lemma_accumulate_at_insert(l: Seq<RowModel>, row: RowModel, i: int)
    requires
        0 <= i <= l.len(),
        forall|j: int| 0 <= j < i ==> (#[trigger] l[j]).id != row.id && lex_cmp(l[j].id, row.id) < 0,
        i < l.len() ==> l[i].id != row.id && lex_cmp(l[i].id, row.id) >= 0,
    ensures
        spec_accumulate(l, row) == Some(l.take(i) + seq![row] + l.skip(i)),
    decreases i,
{
    if i == 0 {
        if l.len() == 0 {
            assert(seq![row] =~= l.take(0) + seq![row] + l.skip(0));
        } else {
            assert(seq![row] + l =~= l.take(0) + seq![row] + l.skip(0));
        }
    } else {
        lemma_accumulate_at_insert(l.drop_first(), row, i - 1);
        assert(seq![l[0]] + (l.drop_first().take(i - 1) + seq![row] + l.drop_first().skip(i - 1))
            =~= l.take(i) + seq![row] + l.skip(i));
    }
}

/// Inserting a row at its sorted position keeps the ledger sorted and
/// identifiers distinct.
proof fn lemma_sorted_after_insert(l: Seq<RowModel>, l2: Seq<RowModel>, row: RowModel, i: int)
    requires
        0 <= i <= l.len(),
        forall|j: int| 0 <= j < i ==> (#[trigger] l[j]).id != row.id && lex_cmp(l[j].id, row.id) < 0,
        i < l.len() ==> l[i].id != row.id && lex_cmp(l[i].id, row.id) >= 0,
        forall|p: int, q: int|
            0 <= p < q < l.len() ==> lex_cmp((#[trigger] l[p]).id, (#[trigger] l[q]).id) <= 0
                && l[p].id != l[q].id,
        l2 == l.take(i) + seq![row] + l.skip(i),
    ensures
        forall|p: int, q: int|
            0 <= p < q < l2.len() ==> lex_cmp((#[trigger] l2[p]).id, (#[trigger] l2[q]).id) <= 0
                && l2[p].id != l2[q].id,
{
    assert forall|p: int, q: int| 0 <= p < q < l2.len() implies lex_cmp((#[trigger] l2[p]).id, (
    #[trigger] l2[q]).id) <= 0 && l2[p].id != l2[q].id by {
        lemma_row_order(l, l2, row, i, p, q);
    }
}

/// One pair of the sortedness claim above.
proof fn lemma_row_order(l: Seq<RowModel>, l2: Seq<RowModel>, row: RowModel, i: int, p: int, q: int)
    requires
        0 <= i <= l.len(),
        forall|j: int| 0 <= j < i ==> (#[trigger] l[j]).id != row.id && lex_cmp(l[j].id, row.id) < 0,
        i < l.len() ==> l[i].id != row.id && lex_cmp(l[i].id, row.id) >= 0,
        forall|p0: int, q0: int|
            0 <= p0 < q0 < l.len() ==> lex_cmp((#[trigger] l[p0]).id, (#[trigger] l[q0]).id) <= 0
                && l[p0].id != l[q0].id,
        l2 == l.take(i) + seq![row] + l.skip(i),
        0 <= p < q < l2.len(),
    ensures
        lex_cmp(l2[p].id, l2[q].id) <= 0,
        l2[p].id != l2[q].id,
{
    crate::strutil::lemma_lex_cmp_range(row.id, if i < l.len() { l[i].id } else { row.id });
    if p < i && q < i {
        assert(l2[p] == l[p] && l2[q] == l[q]);
    } else if p < i && q == i {
        assert(l2[p] == l[p] && l2[q] == row);
    } else if p < i && q > i {
        assert(l2[p] == l[p] && l2[q] == l[q - 1]);
    } else if p == i && q > i {
        assert(l2[p] == row && l2[q] == l[q - 1]);
        // row sorts no later than l[i], which sorts no later than l[q-1].
        if q - 1 > i {
            crate::strutil::lemma_lex_cmp_antisym(l[i].id, row.id);
            crate::strutil::lemma_lex_cmp_trans(row.id, l[i].id, l[q - 1].id);
            if row.id == l[q - 1].id {
                // then l[i] would compare equal to row, hence be equal to it.
                crate::strutil::lemma_lex_cmp_zero(l[i].id, row.id);
            }
        } else {
            crate::strutil::lemma_lex_cmp_antisym(l[i].id, row.id);
        }
    } else {
        assert(l2[p] == l[p - 1] && l2[q] == l[q - 1]);
    }
}

/// Additivity of the ledger: an item not yet present that is reached by two
/// branches contributing `x` and then `y` ends with amount exactly `x + y`.
/// Together with `lemma_plus_comm` this makes the final amount independent
/// of the order in which the two branches arrive.
pub proof fn lemma_ledger_additivity(l: Seq<RowModel>, rx: RowModel, ry: RowModel)
    requires
        rx.id == ry.id,
        spec_amount_of(l, rx.id) is None,
    ensures
        ({
            let once = spec_accumulate(l, rx);
            once is Some ==> ({
                let twice = spec_accumulate(once.unwrap(), ry);
                twice is Some ==> spec_amount_of(twice.unwrap(), rx.id) == spec_plus(rx.amount,
                    ry.amount)
            })
        }),
    decreases l.len(),
{
    if l.len() == 0 {
        let once = spec_accumulate(l, rx);
        assert(once == Some(seq![rx]));
        let merged = spec_plus(rx.amount, ry.amount);
        if merged is Some {
            let m = RowModel {
                id: rx.id,
                name: rx.name,
                tier: rx.tier,
                amount: merged.unwrap(),
                time_per_part: rx.time_per_part,
            };
            assert(spec_accumulate(seq![rx], ry) == Some(seq![m] + seq![rx].drop_first()));
            assert((seq![m] + seq![rx].drop_first())[0] == m);
        }
    } else if l[0].id == rx.id {
        assert(false);
    } else if lex_cmp(l[0].id, rx.id) < 0 {
        lemma_ledger_additivity(l.drop_first(), rx, ry);
        let once = spec_accumulate(l, rx);
        if once is Some {
            let t1 = spec_accumulate(l.drop_first(), rx).unwrap();
            assert(once.unwrap() == seq![l[0]] + t1);
            assert((seq![l[0]] + t1).drop_first() =~= t1);
            let twice = spec_accumulate(once.unwrap(), ry);
            if twice is Some {
                let t2 = spec_accumulate(t1, ry).unwrap();
                assert(twice.unwrap() == seq![l[0]] + t2);
                assert((seq![l[0]] + t2).drop_first() =~= t2);
                assert(spec_amount_of(twice.unwrap(), rx.id) == spec_amount_of(t2, rx.id));
            }
        }
    } else {
        let once = spec_accumulate(l, rx);
        assert(once == Some(seq![rx] + l));
        let merged = spec_plus(rx.amount, ry.amount);
        if merged is Some {
            let m = RowModel {
                id: rx.id,
                name: rx.name,
                tier: rx.tier,
                amount: merged.unwrap(),
                time_per_part: rx.time_per_part,
            };
            assert(spec_accumulate(seq![rx] + l, ry) == Some(
                seq![m] + (seq![rx] + l).drop_first(),
            ));
            assert((seq![m] + (seq![rx] + l).drop_first())[0] == m);
        }
    }
}

} // verus!
