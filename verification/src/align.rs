//! Node-order alignment by name: builds the relabeling that the distance
//! metrics expect from two per-node name lists, and inverts it.

use vstd::prelude::*;
use crate::errors::GraphError;
use crate::text::str_eq;

verus! {

/// Some name occurs twice in the list.
pub open spec fn has_duplicate_name(s: Seq<String>) -> bool {
    exists|a: int, b: int| 0 <= a < b < s.len() && (#[trigger] s[a])@ == (#[trigger] s[b])@
}

/// The name occurs in the list.
pub open spec fn name_found(nm: Seq<char>, s: Seq<String>) -> bool {
    exists|j: int| 0 <= j < s.len() && (#[trigger] s[j])@ == nm
}

/// Some name of the first list is missing from the second.
pub open spec fn has_missing_name(s1: Seq<String>, s2: Seq<String>) -> bool {
    exists|i: int| 0 <= i < s1.len() && !name_found((#[trigger] s1[i])@, s2)
}

/// Builds the relabeling from the first name list into the second:
/// `perm[i]` is the position in `names2` of the node named `names1[i]`.
/// Fails on a size mismatch, then on a duplicate name in `names2`, then on
/// a name of `names1` that `names2` does not carry.
pub fn perm_from_names(names1: &Vec<String>, names2: &Vec<String>) -> (r: Result<
    Vec<u32>,
    GraphError,
>)
    ensures
        match r {
            Ok(p) => {
                &&& names1@.len() == names2@.len()
                &&& names1@.len() <= 0xffff_ffff
                &&& !has_duplicate_name(names2@)
                &&& !has_missing_name(names1@, names2@)
                &&& p@.len() == names1@.len()
                &&& forall|i: int|
                    0 <= i < p@.len() ==> ((#[trigger] p@[i]) as int) < names2@.len()
                        && names2@[p@[i] as int]@ == names1@[i]@
            },
            Err(e) => {
                &&& (names1@.len() != names2@.len() || names1@.len() > 0xffff_ffff
                    || has_duplicate_name(names2@) || has_missing_name(names1@, names2@))
                &&& e == if names1@.len() != names2@.len() || names1@.len() > 0xffff_ffff {
                    GraphError::SizeMismatch
                } else if has_duplicate_name(names2@) {
                    GraphError::DuplicateName
                } else {
                    GraphError::NameNotFound
                }
            },
        },
{
    let n = names1.len();
    if n != names2.len() {
        return Err(GraphError::SizeMismatch);
    }
    if n > 0xffff_ffff {
        return Err(GraphError::SizeMismatch);
    }
    // reject an ambiguous second list
    let mut a: usize = 0;
    while a < n
        invariant
            n == names1@.len(),
            n == names2@.len(),
            n <= 0xffff_ffff,
            0 <= a <= n,
            forall|a2: int, b2: int|
                0 <= a2 < a && a2 < b2 < n ==> (#[trigger] names2@[a2])@ != (
                #[trigger] names2@[b2])@,
        decreases n - a,
    {
        let mut b: usize = a + 1;
        while b < n
            invariant
                n == names1@.len(),
                n == names2@.len(),
                n <= 0xffff_ffff,
                0 <= a < n,
                a < b <= n,
                forall|b2: int|
                    a < b2 < b ==> (#[trigger] names2@[b2])@ != names2@[a as int]@,
            decreases n - b,
        {
            if str_eq(names2[a].as_str(), names2[b].as_str()) {
                proof {
                    assert((names2@[a as int])@ == (names2@[b as int])@);
                }
                return Err(GraphError::DuplicateName);
            }
            b += 1;
        }
        proof {
            assert forall|b2: int| a < b2 < n implies (#[trigger] names2@[b2])@ != (
            names2@[a as int])@ by {}
        }
        a += 1;
    }
    // look each name of the first list up in the second
    let mut p: Vec<u32> = Vec::new();
    let mut i: usize = 0;
    while i < n
        invariant
            n == names1@.len(),
            n == names2@.len(),
            n <= 0xffff_ffff,
            !has_duplicate_name(names2@),
            0 <= i <= n,
            p@.len() == i,
            forall|i2: int|
                0 <= i2 < i ==> ((#[trigger] p@[i2]) as int) < n && names2@[p@[i2] as int]@
                    == names1@[i2]@,
        decreases n - i,
    {
        let mut j: usize = 0;
        let mut found: bool = false;
        let mut pos: usize = 0;
        while j < n
            invariant
                n == names1@.len(),
                n == names2@.len(),
                n <= 0xffff_ffff,
                !has_duplicate_name(names2@),
                0 <= i < n,
                0 <= j <= n,
                !found ==> forall|j2: int|
                    0 <= j2 < j ==> (#[trigger] names2@[j2])@ != names1@[i as int]@,
                found ==> pos < n && names2@[pos as int]@ == names1@[i as int]@,
            decreases n - j,
        {
            if !found && str_eq(names2[j].as_str(), names1[i].as_str()) {
                found = true;
                pos = j;
            }
            j += 1;
        }
        if !found {
            proof {
                assert(!name_found((names1@[i as int])@, names2@));
                assert(has_missing_name(names1@, names2@));
            }
            return Err(GraphError::NameNotFound);
        }
        p.push(pos as u32);
        i += 1;
    }
    proof {
        assert(!has_missing_name(names1@, names2@)) by {
            if has_missing_name(names1@, names2@) {
                let i2 = choose|i2: int|
                    0 <= i2 < names1@.len() && !name_found((#[trigger] names1@[i2])@, names2@);
                assert(names2@[p@[i2] as int]@ == names1@[i2]@);
                assert(name_found((names1@[i2])@, names2@));
            }
        }
    }
    Ok(p)
}

/// Inverts a relabeling: `inv[perm[i]] == i` for every node. Fails on an
/// entry out of range, then on a repeated entry; a permutation over
/// `0..perm.len()` always inverts.
pub fn invert_perm(perm: &Vec<u32>) -> (r: Result<Vec<u32>, GraphError>)
    requires
        perm@.len() <= 0xffff_ffff,
    ensures
        match r {
            Ok(inv) => {
                &&& inv@.len() == perm@.len()
                &&& forall|i: int|
                    0 <= i < perm@.len() ==> ((#[trigger] perm@[i]) as int) < perm@.len()
                        && inv@[perm@[i] as int] as int == i
            },
            Err(e) => {
                &&& (exists|i: int|
                    0 <= i < perm@.len() && ((#[trigger] perm@[i]) as int) >= perm@.len())
                    || (exists|i1: int, i2: int|
                    0 <= i1 < i2 < perm@.len() && (#[trigger] perm@[i1]) == (
                    #[trigger] perm@[i2]))
                &&& (e == GraphError::InvalidNodeId || e == GraphError::DuplicateName)
            },
        },
{
    let n = perm.len();
    let mut inv: Vec<u32> = Vec::new();
    let mut filled: Vec<bool> = Vec::new();
    let mut q: usize = 0;
    while q < n
        invariant
            0 <= q <= n,
            inv@.len() == q,
            filled@.len() == q,
            forall|t: int| 0 <= t < q ==> !(#[trigger] filled@[t]),
        decreases n - q,
    {
        inv.push(0);
        filled.push(false);
        q += 1;
    }
    let mut i: usize = 0;
    while i < n
        invariant
            n == perm@.len(),
            n <= 0xffff_ffff,
            inv@.len() == n,
            filled@.len() == n,
            0 <= i <= n,
            forall|i2: int|
                0 <= i2 < i ==> ((#[trigger] perm@[i2]) as int) < n && filled@[perm@[i2] as int]
                    && inv@[perm@[i2] as int] as int == i2,
            forall|t: int|
                0 <= t < n && #[trigger] filled@[t] ==> exists|i2: int|
                    0 <= i2 < i && (#[trigger] perm@[i2]) as int == t,
        decreases n - i,
    {
        let j = perm[i];
        if j as usize >= n {
            proof {
                assert(((#[trigger] perm@[i as int]) as int) >= n);
            }
            return Err(GraphError::InvalidNodeId);
        }
        if filled[j as usize] {
            proof {
                let i1 = choose|i1: int|
                    0 <= i1 < i && (#[trigger] perm@[i1]) as int == j as int;
                assert((#[trigger] perm@[i1]) == perm@[i as int]);
            }
            return Err(GraphError::DuplicateName);
        }
        let ghost filled0 = filled@;
        inv[j as usize] = i as u32;
        filled[j as usize] = true;
        proof {
            assert forall|t: int|
                0 <= t < n && #[trigger] filled@[t] implies exists|i2: int|
                    0 <= i2 < i + 1 && (#[trigger] perm@[i2]) as int == t by {
                if t == j as int {
                    assert((perm@[i as int]) as int == t);
                } else {
                    assert(filled0[t]);
                    let i2 = choose|i2: int|
                        0 <= i2 < i && (#[trigger] perm@[i2]) as int == t;
                    assert((perm@[i2]) as int == t);
                }
            }
        }
        i += 1;
    }
    Ok(inv)
}

} // verus!
