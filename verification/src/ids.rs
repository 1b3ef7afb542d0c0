//! The identifier allocator: deterministic generation of short base-36
//! identifiers that avoid every identifier already in use.  `new_unique_id`
//! always returns the numerically first free identifier, `try_id` keeps a
//! desired identifier whenever it is still free.

use crate::numstr::{b36_char, b36_str, base36_text};
use crate::strutil::views;
use vstd::prelude::*;
use vstd::set_lib::{lemma_int_range, lemma_len_subset, lemma_map_size, set_int_range};

verus! {

/// Distinct base-36 digits have distinct characters.
pub proof fn lemma_b36_char_inj(a: nat, b: nat)
    requires
        a < 36,
        b < 36,
        b36_char(a) == b36_char(b),
    ensures
        a == b,
{
    if a < 10 {
        assert((((48 + a) as u32) as char) as u32 == 48 + a);
    } else {
        assert((((87 + a) as u32) as char) as u32 == 87 + a);
    }
    if b < 10 {
        assert((((48 + b) as u32) as char) as u32 == 48 + b);
    } else {
        assert((((87 + b) as u32) as char) as u32 == 87 + b);
    }
}

/// Every character of a base-36 numeral is a digit or a lowercase letter.
pub proof fn lemma_b36_lowercase(n: nat)
    ensures
        forall|i: int|
            0 <= i < b36_str(n).len() ==> (48 <= #[trigger] (b36_str(n)[i] as u32) <= 57 || 97 <= (
            b36_str(n)[i] as u32) <= 122),
    decreases n,
{
    if n < 36 {
        if n < 10 {
            assert((((48 + n) as u32) as char) as u32 == 48 + n);
        } else {
            assert((((87 + n) as u32) as char) as u32 == 87 + n);
        }
    } else {
        lemma_b36_lowercase(n / 36);
        let d = n % 36;
        if d < 10 {
            assert((((48 + d) as u32) as char) as u32 == 48 + d);
        } else {
            assert((((87 + d) as u32) as char) as u32 == 87 + d);
        }
        assert(forall|i: int|
            0 <= i < b36_str(n).len() - 1 ==> b36_str(n)[i] == b36_str(n / 36)[i]);
    }
}

/// A base-36 numeral has one digit per division step.
pub proof fn lemma_b36_len(n: nat)
    ensures
        b36_str(n).len() >= 1,
        n >= 36 ==> b36_str(n).len() >= 2,
    decreases n,
{
    if n >= 36 {
        lemma_b36_len(n / 36);
    }
}

/// Distinct numbers have distinct base-36 numerals.
pub proof fn lemma_b36_inj(a: nat, b: nat)
    requires
        b36_str(a) == b36_str(b),
    ensures
        a == b,
    decreases a + b,
{
    lemma_b36_len(a);
    lemma_b36_len(b);
    if a < 36 && b < 36 {
        assert(b36_str(a)[0] == b36_char(a));
        assert(b36_str(b)[0] == b36_char(b));
        lemma_b36_char_inj(a, b);
    } else if a < 36 || b < 36 {
        // one numeral is a single character, the other at least two
        assert(false);
    } else {
        assert(b36_str(a).last() == b36_char(a % 36));
        assert(b36_str(b).last() == b36_char(b % 36));
        lemma_b36_char_inj(a % 36, b % 36);
        assert(b36_str(a).drop_last() =~= b36_str(a / 36));
        assert(b36_str(b).drop_last() =~= b36_str(b / 36));
        lemma_b36_inj(a / 36, b / 36);
    }
}

/// When every numeral up to `k` is taken, the list holds at least `k + 1`
/// distinct identifiers.
pub proof fn lemma_taken_bound(idv: Seq<Seq<char>>, k: nat)
    requires
        forall|j: nat| j <= k ==> idv.contains(#[trigger] b36_str(j)),
    ensures
        k + 1 <= idv.len(),
{
    let xs = set_int_range(0, k as int + 1);
    let f = |j: int| b36_str(j as nat);
    let ys = xs.map(f);
    lemma_int_range(0, k as int + 1);
    assert(vstd::relations::injective_on(f, xs)) by {
        assert forall|x1: int, x2: int|
            xs.contains(x1) && xs.contains(x2) && #[trigger] f(x1) == #[trigger] f(
                x2,
            ) implies x1 == x2 by {
            lemma_b36_inj(x1 as nat, x2 as nat);
        }
    }
    lemma_map_size(xs, ys, f);
    assert(ys.subset_of(idv.to_set())) by {
        assert forall|y: Seq<char>| ys.contains(y) implies idv.to_set().contains(y) by {
            let j = choose|j: int| xs.contains(j) && f(j) == y;
            assert(idv.contains(b36_str(j as nat)));
        }
    }
    lemma_len_subset(ys, idv.to_set());
    idv.lemma_cardinality_of_set();
}

/// The number the allocator stops at: the least whose base-36 numeral is
/// not in the list.
pub open spec fn alloc_index(idv: Seq<Seq<char>>) -> nat {
    choose|k: nat|
        !idv.contains(b36_str(k)) && forall|j: nat| j < k ==> idv.contains(#[trigger] b36_str(j))
}

/// The identifier the allocator yields for the identifiers already in use.
pub open spec fn alloc_id(idv: Seq<Seq<char>>) -> Seq<char> {
    b36_str(alloc_index(idv))
}

/// Is `id` absent from `ids`?
pub fn is_id_available(ids: &[String], id: &str) -> (r: bool)
    ensures
        r == !views(ids@).contains(id@),
{
    let n = ids.len();
    let mut i: usize = 0;
    while i < n
        invariant
            n == ids@.len(),
            i <= n,
            forall|j: int| 0 <= j < i ==> views(ids@)[j] != id@,
        decreases n - i,
    {
        if crate::strutil::str_eq(ids[i].as_str(), id) {
            assert(views(ids@)[i as int] == id@);
            return false;
        }
        i = i + 1;
    }
    proof {
        if views(ids@).contains(id@) {
            let j = choose|j: int| 0 <= j < views(ids@).len() && views(ids@)[j] == id@;
        }
    }
    true
}

/// The numerically first base-36 identifier that is not yet in use.
/// Duplicates in `ids` do not affect the result, and the result is never
/// one of `ids`.
pub fn new_unique_id(ids: &[String]) -> (r: String)
    ensures
        r@ == alloc_id(views(ids@)),
        !views(ids@).contains(r@),
{
    let ghost idv = views(ids@);
    let n = ids.len();
    let mut k: u64 = 0;
    loop
        invariant
            idv == views(ids@),
            idv.len() == n,
            forall|j: nat| j < k ==> idv.contains(#[trigger] b36_str(j)),
            k <= idv.len(),
        decreases idv.len() - k,
    {
        let cand = base36_text(k);
        if is_id_available(ids, cand.as_str()) {
            proof {
                let k0 = k as nat;
                assert(!idv.contains(b36_str(k0)) && forall|j: nat|
                    j < k0 ==> idv.contains(#[trigger] b36_str(j)));
                let kc = alloc_index(idv);
                assert(!idv.contains(b36_str(kc)) && forall|j: nat|
                    j < kc ==> idv.contains(#[trigger] b36_str(j)));
                if kc < k0 {
                    assert(idv.contains(b36_str(kc)));
                } else if k0 < kc {
                    assert(idv.contains(b36_str(k0)));
                }
            }
            return cand;
        }
        proof {
            lemma_taken_bound(idv, k as nat);
        }
        k = k + 1;
    }
}

/// `id` when it is still free, and otherwise the first free base-36
/// identifier: an identifier outside `ids` always comes back unchanged.
pub fn try_id(ids: &[String], id: &str) -> (r: String)
    ensures
        r@ == (if !views(ids@).contains(id@) {
            id@
        } else {
            alloc_id(views(ids@))
        }),
        !views(ids@).contains(r@),
{
    if is_id_available(ids, id) {
        id.to_owned()
    } else {
        new_unique_id(ids)
    }
}

} // verus!
