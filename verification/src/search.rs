//! Name resolution: case-insensitive substring search over the catalog by
//! identifier or display name.

use vstd::prelude::*;
use vstd::string::StrSliceExecFns;
use crate::catalog::{Catalog, Recipe};

verus! {

/// What `str::to_lowercase` returns for a given character sequence.
pub uninterp spec fn lower_of(s: Seq<char>) -> Seq<char>;

/// Relies on str::to_lowercase: the result depends on the characters alone.
#[verifier::external_body]
fn lowercase(s: &str) -> (r: String)
    ensures
        r@ == lower_of(s@),
{
    s.to_lowercase()
}

/// `needle` occurs contiguously inside `hay` (an empty needle always does).
pub open spec fn spec_contains(hay: Seq<char>, needle: Seq<char>) -> bool {
    exists|k: int|
        0 <= k <= hay.len() - needle.len() && #[trigger] hay.subrange(k, k + needle.len())
            == needle
}

/// Substring search by character comparison.
#[verifier::loop_isolation(false)]
fn str_contains(hay: &str, needle: &str) -> (r: bool)
    ensures
        r == spec_contains(hay@, needle@),
{
    let n = hay.unicode_len();
    let m = needle.unicode_len();
    if m > n {
        proof {
            assert(!spec_contains(hay@, needle@));
        }
        return false;
    }
    if m == 0 {
        proof {
            assert(hay@.subrange(0, 0 + needle@.len() as int) =~= needle@);
            assert(spec_contains(hay@, needle@));
        }
        return true;
    }
    let mut k: usize = 0;
    while k <= n - m
        invariant
            k <= n - m + 1,
            forall|k0: int|
                0 <= k0 < k ==> #[trigger] hay@.subrange(k0, k0 + needle@.len()) != needle@,
        decreases n - m - k + 1,
    {
        let mut j: usize = 0;
        let mut hit = true;
        while j < m
            invariant
                j <= m,
                k + m <= n,
                hit ==> forall|j0: int| 0 <= j0 < j ==> hay@[k + j0] == needle@[j0],
                !hit ==> hay@.subrange(k as int, k + needle@.len()) != needle@,
            decreases m - j,
        {
            if hay.get_char(k + j) != needle.get_char(j) {
                proof {
                    assert(hay@.subrange(k as int, k + needle@.len())[j as int] != needle@[
                        j as int]);
                }
                hit = false;
                j = m;
            } else {
                j = j + 1;
            }
        }
        if hit {
            proof {
                assert(hay@.subrange(k as int, k + needle@.len()) =~= needle@);
            }
            return true;
        }
        k = k + 1;
    }
    proof {
        assert forall|k0: int| 0 <= k0 <= hay@.len() - needle@.len() implies #[trigger]
        hay@.subrange(k0, k0 + needle@.len()) != needle@ by {
            assert(k0 < k);
        }
    }
    false
}

/// Whether a recipe answers a lowercased search string: its identifier or
/// its display name, lowercased, equals or contains the string.
pub open spec fn spec_matches(rec: Recipe, q: Seq<char>) -> bool {
    spec_contains(lower_of(rec.id@), q) || spec_contains(lower_of(rec.name@), q)
}

/// The positions of all recipes answering the search, in catalog order.
pub open spec fn spec_match_indices(rs: Seq<Recipe>, q: Seq<char>) -> Seq<usize>
    decreases rs.len(),
{
    if rs.len() == 0 {
        Seq::empty()
    } else if spec_matches(rs.last(), q) {
        spec_match_indices(rs.drop_last(), q).push((rs.len() - 1) as usize)
    } else {
        spec_match_indices(rs.drop_last(), q)
    }
}

/// Case-insensitive search: the positions of every recipe whose identifier
/// or display name equals or contains the search string, in catalog order.
#[verifier::loop_isolation(false)]
pub fn find_matching(search_string: &String, cat: &Catalog) -> (r: Vec<usize>)
    ensures
        r@ == spec_match_indices(cat.recipes@, lower_of(search_string@)),
{
    let q = lowercase(search_string.as_str());
    let n = cat.recipes.len();
    let mut out: Vec<usize> = Vec::new();
    let mut i: usize = 0;
    proof {
        assert(out@ =~= spec_match_indices(cat.recipes@.take(0), q@));
    }
    while i < n
        invariant
            i <= n,
            out@ == spec_match_indices(cat.recipes@.take(i as int), q@),
        decreases n - i,
    {
        let li = lowercase(cat.recipes[i].id.as_str());
        let ln = lowercase(cat.recipes[i].name.as_str());
        if str_contains(li.as_str(), q.as_str()) || str_contains(ln.as_str(), q.as_str()) {
            out.push(i);
        }
        proof {
            assert(cat.recipes@.take(i + 1).drop_last() =~= cat.recipes@.take(i as int));
            assert(cat.recipes@.take(i + 1).last() == cat.recipes@[i as int]);
        }
        i = i + 1;
    }
    proof {
        assert(cat.recipes@.take(n as int) =~= cat.recipes@);
    }
    out
}

} // verus!
