//! The recipe catalog: the read-only set of known recipes, keyed by
//! identifier.

use vstd::prelude::*;
use crate::amount::Amount;
use crate::time::{CraftingTime, spec_to_secs};

verus! {

/// One craftable item's definition.
///
/// `batch_size` (when present) is the strictly positive quantity yielded by
/// one craft action; `time` is the duration of one craft action (one whole
/// batch); `requirements` maps sub-item identifiers to the quantity consumed
/// per batch.
pub struct Recipe {
    pub id: String,
    pub name: String,
    pub tier: i32,
    pub batch_size: Option<Amount>,
    pub time: Option<CraftingTime>,
    pub requirements: Vec<(String, Amount)>,
}

impl Recipe {
    /// Structural invariant: a present batch size is a well-formed, strictly
    /// positive rational; requirement quantities are well-formed; a present
    /// crafting time fits in a `u64` second count.
    pub open spec fn wf(self) -> bool {
        &&& match self.batch_size {
            Some(b) => b.wf() && b.num >= 1,
            None => true,
        }
        &&& forall|i: int|
            0 <= i < self.requirements@.len() ==> (#[trigger] self.requirements@[i]).1.wf()
        &&& match self.time {
            Some(t) => spec_to_secs(t) <= u64::MAX,
            None => true,
        }
        &&& self.spec_time_secs() <= u64::MAX
    }

    /// The per-batch crafting time in seconds; absent means zero.
    pub open spec fn spec_time_secs(self) -> int {
        match self.time {
            Some(t) => spec_to_secs(t),
            None => 0,
        }
    }

    /// Check the structural invariant on an arbitrary value.
    pub fn check_wf(&self) -> (r: bool)
        ensures
            r == self.wf(),
    {
        let batch_ok = match &self.batch_size {
            Some(b) => b.den >= 1 && b.num >= 1,
            None => true,
        };
        if !batch_ok {
            return false;
        }
        let time_ok = match &self.time {
            Some(t) => t.checked_to_secs().is_some(),
            None => true,
        };
        if !time_ok {
            return false;
        }
        let mut i: usize = 0;
        while i < self.requirements.len()
            invariant
                i <= self.requirements@.len(),
                forall|j: int| 0 <= j < i ==> (#[trigger] self.requirements@[j]).1.wf(),
            decreases self.requirements@.len() - i,
        {
            if self.requirements[i].1.den < 1 {
                return false;
            }
            i = i + 1;
        }
        true
    }
}

/// First recipe in `rs` whose identifier reads `id`, scanning left to right.
pub open spec fn spec_find(rs: Seq<Recipe>, id: Seq<char>) -> Option<Recipe>
    decreases rs.len(),
{
    if rs.len() == 0 {
        None
    } else if rs[0].id@ == id {
        Some(rs[0])
    } else {
        spec_find(rs.drop_first(), id)
    }
}

/// A scanned prefix without the identifier does not change the lookup.
proof fn lemma_spec_find_skip(rs: Seq<Recipe>, id: Seq<char>, i: int)
    requires
        0 <= i <= rs.len(),
        forall|j: int| 0 <= j < i ==> (#[trigger] rs[j]).id@ != id,
    ensures
        spec_find(rs, id) == spec_find(rs.skip(i), id),
    decreases i,
{
    if i == 0 {
        assert(rs.skip(0) =~= rs);
    } else {
        lemma_spec_find_skip(rs.drop_first(), id, i - 1);
        assert(rs.drop_first().skip(i - 1) =~= rs.skip(i));
    }
}

/// A successful lookup returns an entry of the catalog with the identifier
/// looked for.
pub proof fn lemma_spec_find_some(rs: Seq<Recipe>, id: Seq<char>)
    requires
        spec_find(rs, id) is Some,
    ensures
        exists|i: int|
            0 <= i < rs.len() && rs[i] == spec_find(rs, id).unwrap() && (#[trigger] rs[i]).id@
                == id,
    decreases rs.len(),
{
    if rs.len() > 0 && rs[0].id@ != id {
        lemma_spec_find_some(rs.drop_first(), id);
        let i = choose|i: int|
            0 <= i < rs.drop_first().len() && rs.drop_first()[i] == spec_find(rs.drop_first(),
            id).unwrap() && (#[trigger] rs.drop_first()[i]).id@ == id;
        assert(rs[i + 1] == rs.drop_first()[i]);
    }
}

/// A failed lookup means no entry carries the identifier.
pub proof fn lemma_spec_find_none(rs: Seq<Recipe>, id: Seq<char>)
    requires
        spec_find(rs, id) is None,
    ensures
        forall|j: int| 0 <= j < rs.len() ==> (#[trigger] rs[j]).id@ != id,
    decreases rs.len(),
{
    if rs.len() > 0 {
        lemma_spec_find_none(rs.drop_first(), id);
        assert forall|j: int| 0 <= j < rs.len() implies (#[trigger] rs[j]).id@ != id by {
            if j > 0 {
                assert(rs.drop_first()[j - 1].id@ != id);
            }
        }
    }
}

/// The complete set of known recipes, with pairwise distinct identifiers.
pub struct Catalog {
    pub recipes: Vec<Recipe>,
}

impl Catalog {
    /// Every recipe is well-formed and identifiers are pairwise distinct.
    pub open spec fn wf(self) -> bool {
        &&& forall|i: int| 0 <= i < self.recipes@.len() ==> (#[trigger] self.recipes@[i]).wf()
        &&& forall|i: int, j: int|
            0 <= i < j < self.recipes@.len() ==> (#[trigger] self.recipes@[i]).id@ != (
            #[trigger] self.recipes@[j]).id@
    }

    /// An empty catalog.
    pub fn new() -> (r: Catalog)
        ensures
            r.wf(),
            r.recipes@.len() == 0,
    {
        Catalog { recipes: Vec::new() }
    }

    /// Number of recipes.
    pub fn len(&self) -> (r: usize)
        ensures
            r == self.recipes@.len(),
    {
        self.recipes.len()
    }

    /// Look up a recipe by identifier.
    pub fn find<'a>(&'a self, id: &String) -> (r: Option<&'a Recipe>)
        ensures
            match r {
                Some(rec) => spec_find(self.recipes@, id@) == Some(*rec),
                None => spec_find(self.recipes@, id@) is None,
            },
    {
        let n = self.recipes.len();
        let mut i: usize = 0;
        while i < n
            invariant
                i <= n,
                n == self.recipes@.len(),
                forall|j: int| 0 <= j < i ==> (#[trigger] self.recipes@[j]).id@ != id@,
            decreases n - i,
        {
            if self.recipes[i].id == *id {
                proof {
                    lemma_spec_find_skip(self.recipes@, id@, i as int);
                }
                return Some(&self.recipes[i]);
            }
            i = i + 1;
        }
        proof {
            lemma_spec_find_skip(self.recipes@, id@, i as int);
        }
        None
    }

    /// Add a recipe; refused (catalog unchanged) when the identifier is
    /// already taken.
    pub fn push(&mut self, r: Recipe) -> (ok: bool)
        requires
            old(self).wf(),
            r.wf(),
        ensures
            final(self).wf(),
            ok == (spec_find(old(self).recipes@, r.id@) is None),
            ok ==> final(self).recipes@ == old(self).recipes@.push(r),
            !ok ==> final(self).recipes@ == old(self).recipes@,
    {
        match self.find(&r.id) {
            Some(_) => false,
            None => {
                proof {
                    lemma_spec_find_none(self.recipes@, r.id@);
                }
                self.recipes.push(r);
                true
            },
        }
    }
}

} // verus!
