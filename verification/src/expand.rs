//! The expansion engine: a depth-first recursive walk of the recipe graph
//! from a root item and a requested quantity.
//!
//! At every node the requested amount is rounded up to whole batches, folded
//! into the aggregate ledger, and one progress line is emitted; then every
//! requirement is expanded with the per-batch quantity times the number of
//! batches. A requirement naming an unknown identifier aborts the whole
//! expansion, as does a cyclic catalog (detected when the walk grows deeper
//! than the catalog is large, which only a cycle can cause).

use vstd::prelude::*;
use crate::amount::{Amount, spec_batches, spec_times, spec_times_int};
use crate::catalog::{Catalog, Recipe, spec_find, lemma_spec_find_some};
use crate::ledger::{Ledger, RowModel, spec_accumulate};
use crate::render::spec_tree_line;

verus! {

/// A fatal expansion failure.
#[derive(Debug)]
pub enum ExpandError {
    /// An identifier (root or requirement) is absent from the catalog.
    ItemNotFound(String),
    /// The walk grew deeper than the catalog is large: the requirement
    /// graph is cyclic.
    CycleDetected(String),
    /// A running amount no longer fits the exact arithmetic.
    AmountOverflow,
}

/// Mathematical image of an expansion failure.
pub ghost enum ErrModel {
    ItemNotFound(Seq<char>),
    CycleDetected(Seq<char>),
    AmountOverflow,
}

impl View for ExpandError {
    type V = ErrModel;

    open spec fn view(&self) -> ErrModel {
        match self {
            ExpandError::ItemNotFound(s) => ErrModel::ItemNotFound(s@),
            ExpandError::CycleDetected(s) => ErrModel::CycleDetected(s@),
            ExpandError::AmountOverflow => ErrModel::AmountOverflow,
        }
    }
}

/// The effective amount and the per-requirement multiplier for one node:
/// with a batch size `b`, `ceil(r/b)*b` and the whole number of batches;
/// without one, the request itself for both.
pub open spec fn spec_eff_base(r: Amount, batch: Option<Amount>) -> Option<(Amount, Amount)> {
    match batch {
        None => Some((r, r)),
        Some(b) => match spec_batches(r, b) {
            None => None,
            Some(k) => match spec_times_int(k, b) {
                None => None,
                Some(e) => Some((e, Amount { num: k, den: 1 })),
            },
        },
    }
}

/// One node of the expansion: look the item up, round the request to whole
/// batches, emit its tree line, fold it into the ledger, then walk its
/// requirements.
pub open spec fn spec_expand(cat: Seq<Recipe>, id: Seq<char>, req: Amount, depth: int,
    ledger: Seq<RowModel>, out: Seq<char>) -> Result<(Seq<RowModel>, Seq<char>), ErrModel>
    decreases cat.len() - depth, 1int, 0int,
        when 0 <= depth <= cat.len()
{
    match spec_find(cat, id) {
        None => Err(ErrModel::ItemNotFound(id)),
        Some(r) => if depth >= cat.len() {
            Err(ErrModel::CycleDetected(id))
        } else {
            match spec_eff_base(req, r.batch_size) {
                None => Err(ErrModel::AmountOverflow),
                Some((eff, base)) => {
                    let out2 = out + spec_tree_line(depth, r.name@, eff, r.tier as int);
                    let row = RowModel {
                        id: id,
                        name: r.name@,
                        tier: r.tier as int,
                        amount: eff,
                        time_per_part: r.spec_time_secs() as u64,
                    };
                    match spec_accumulate(ledger, row) {
                        None => Err(ErrModel::AmountOverflow),
                        Some(l2) => spec_expand_reqs(cat, r.requirements@, base, depth, l2, out2,
                            0),
                    }
                },
            }
        },
    }
}

/// The requirements of one node, expanded left to right from index `i`,
/// each with request `base` times its per-batch quantity.
pub open spec fn spec_expand_reqs(cat: Seq<Recipe>, reqs: Seq<(String, Amount)>, base: Amount,
    depth: int, ledger: Seq<RowModel>, out: Seq<char>, i: int) -> Result<
    (Seq<RowModel>, Seq<char>),
    ErrModel,
>
    decreases cat.len() - depth, 0int, reqs.len() - i,
        when 0 <= depth < cat.len() && 0 <= i <= reqs.len()
{
    if i >= reqs.len() {
        Ok((ledger, out))
    } else {
        match spec_times(base, reqs[i].1) {
            None => Err(ErrModel::AmountOverflow),
            Some(child) => match spec_expand(cat, reqs[i].0@, child, depth + 1, ledger, out) {
                Err(e) => Err(e),
                Ok((l2, o2)) => spec_expand_reqs(cat, reqs, base, depth, l2, o2, i + 1),
            },
        }
    }
}

fn expand_node(cat: &Catalog, id: &String, req: Amount, depth: usize, ledger: &mut Ledger,
    out: &mut String) -> (r: Result<(), ExpandError>)
    requires
        cat.wf(),
        req.wf(),
        old(ledger).wf(),
        depth <= cat.recipes@.len(),
    ensures
        match spec_expand(cat.recipes@, id@, req, depth as int, old(ledger)@, old(out)@) {
            Ok((l2, o2)) => r is Ok && final(ledger)@ == l2 && final(ledger).wf() && final(out)@
                == o2,
            Err(e) => r is Err && r->Err_0@ == e,
        },
    decreases cat.recipes@.len() - depth, 1int, 0int,
{
    let rec: &Recipe = match cat.find(id) {
        None => {
            return Err(ExpandError::ItemNotFound(id.clone()));
        },
        Some(rr) => rr,
    };
    proof {
        lemma_spec_find_some(cat.recipes@, id@);
    }
    if depth >= cat.len() {
        return Err(ExpandError::CycleDetected(id.clone()));
    }
    let (eff, base) = match &rec.batch_size {
        None => (req, req),
        Some(b) => {
            let k = match req.batches(*b) {
                None => {
                    return Err(ExpandError::AmountOverflow);
                },
                Some(k) => k,
            };
            let e = match b.times_int(k) {
                None => {
                    return Err(ExpandError::AmountOverflow);
                },
                Some(e) => e,
            };
            (e, Amount::whole(k))
        },
    };
    let line = crate::render::render_tree_line(depth, &rec.name, eff, rec.tier);
    out.append(line.as_str());
    let t: u64 = match &rec.time {
        Some(ct) => ct.to_secs(),
        None => 0,
    };
    if !ledger.accumulate(id, &rec.name, rec.tier, eff, t) {
        return Err(ExpandError::AmountOverflow);
    }
    expand_reqs(cat, &rec.requirements, base, depth, ledger, out, 0)
}

fn expand_reqs(cat: &Catalog, reqs: &Vec<(String, Amount)>, base: Amount, depth: usize,
    ledger: &mut Ledger, out: &mut String, i: usize) -> (r: Result<(), ExpandError>)
    requires
        cat.wf(),
        base.wf(),
        old(ledger).wf(),
        depth < cat.recipes@.len(),
        i <= reqs@.len(),
        forall|j: int| 0 <= j < reqs@.len() ==> (#[trigger] reqs@[j]).1.wf(),
    ensures
        match spec_expand_reqs(cat.recipes@, reqs@, base, depth as int, old(ledger)@, old(out)@,
            i as int) {
            Ok((l2, o2)) => r is Ok && final(ledger)@ == l2 && final(ledger).wf() && final(out)@
                == o2,
            Err(e) => r is Err && r->Err_0@ == e,
        },
    decreases cat.recipes@.len() - depth, 0int, reqs@.len() - i,
{
    if i >= reqs.len() {
        return Ok(());
    }
    let cap = cat.len();
    proof {
        assert(depth < cap);
    }
    let q = reqs[i].1;
    let child = match base.times(q) {
        None => {
            return Err(ExpandError::AmountOverflow);
        },
        Some(c) => c,
    };
    match expand_node(cat, &reqs[i].0, child, depth + 1, ledger, out) {
        Err(e) => Err(e),
        Ok(()) => expand_reqs(cat, reqs, base, depth, ledger, out, i + 1),
    }
}

/// Expand `id` with requested amount `req` against `cat`: returns the
/// finished ledger and the progress tree text, or the fatal error, in which
/// case no ledger is produced at all.
pub fn expand(cat: &Catalog, id: &String, req: Amount) -> (r: Result<(Ledger, String), ExpandError>)
    requires
        cat.wf(),
        req.wf(),
    ensures
        match spec_expand(cat.recipes@, id@, req, 0, Seq::empty(), Seq::empty()) {
            Ok((l2, o2)) => r is Ok && r->Ok_0.0@ == l2 && r->Ok_0.0.wf() && r->Ok_0.1@ == o2,
            Err(e) => r is Err && r->Err_0@ == e,
        },
{
    let mut ledger = Ledger::new();
    let mut out = String::new();
    proof {
        assert(ledger@ =~= Seq::<RowModel>::empty());
        assert(out@ =~= Seq::<char>::empty());
    }
    match expand_node(cat, id, req, 0, &mut ledger, &mut out) {
        Ok(()) => Ok((ledger, out)),
        Err(e) => Err(e),
    }
}

} // verus!
