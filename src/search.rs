use vstd::prelude::*;
use crate::catalog::{names_of, Catalog};

verus! {

/// The lowercase form of `s`, as `str::to_lowercase` gives it.
pub uninterp spec fn lower_of(s: Seq<char>) -> Seq<char>;

/// Relies on `str::to_lowercase`: the result depends on the characters of
/// `s` alone, and the empty string stays empty.
#[verifier::external_body]
fn lowercase(s: &str) -> (r: String)
    ensures
        r@ == lower_of(s@),
        s@.len() == 0 ==> r@.len() == 0,
{
    s.to_lowercase()
}

/// `needle` occurs in `haystack` as a contiguous run.
pub open spec fn is_infix(needle: Seq<char>, haystack: Seq<char>) -> bool {
    exists|i: int|
        0 <= i <= haystack.len() - needle.len() && #[trigger] haystack.subrange(i, i + needle.len())
            == needle
}

/// Whether `needle` occurs in `haystack`.
pub fn contains_text(haystack: &str, needle: &str) -> (r: bool)
    ensures
        r == is_infix(needle@, haystack@),
{
    let h = haystack.unicode_len();
    let n = needle.unicode_len();
    if n > h {
        return false;
    }
    let mut i: usize = 0;
    while i <= h - n
        invariant
            h == haystack@.len(),
            n == needle@.len(),
            n <= h,
            i <= h - n + 1,
            forall|k: int| 0 <= k < i ==> #[trigger] haystack@.subrange(k, k + needle@.len()) != needle@,
        decreases h - n + 1 - i,
    {
        let mut j: usize = 0;
        while j < n && haystack.get_char(i + j) == needle.get_char(j)
            invariant
                h == haystack@.len(),
                n == needle@.len(),
                i <= h - n,
                j <= n,
                forall|m: int| 0 <= m < j ==> haystack@[i + m] == needle@[m],
            decreases n - j,
        {
            j = j + 1;
        }
        if j == n {
            assert(haystack@.subrange(i as int, i + n) =~= needle@);
            return true;
        }
        assert(haystack@.subrange(i as int, i + n)[j as int] != needle@[j as int]);
        i = i + 1;
    }
    assert forall|k: int| 0 <= k <= haystack@.len() - needle@.len() implies #[trigger] haystack@.subrange(
        k,
        k + needle@.len(),
    ) != needle@ by {}
    false
}

/// The names in `names` that hold `query`, both compared in lowercase.
pub open spec fn name_matches(names: Seq<Seq<char>>, query: Seq<char>) -> Seq<Seq<char>> {
    names.filter(|n: Seq<char>| is_infix(lower_of(query), lower_of(n)))
}

/// The names of the catalog packages whose name holds `query`, ignoring
/// case, in catalog order.
pub fn search_by_name(catalog: &Catalog, query: &str) -> (r: Vec<String>)
    ensures
        names_of(r@) == name_matches(
            catalog.packages@.map_values(|p: crate::catalog::Package| p.name@),
            query@,
        ),
{
    let q = lowercase(query);
    let ghost all = catalog.packages@.map_values(|p: crate::catalog::Package| p.name@);
    let ghost pred = |n: Seq<char>| is_infix(lower_of(query@), lower_of(n));
    let mut r: Vec<String> = Vec::new();
    let mut i: usize = 0;
    proof {
        reveal_with_fuel(Seq::filter, 1);
        assert(all.subrange(0, 0) =~= Seq::<Seq<char>>::empty());
        assert(names_of(r@) =~= all.subrange(0, 0).filter(pred));
    }
    while i < catalog.packages.len()
        invariant
            q@ == lower_of(query@),
            all == catalog.packages@.map_values(|p: crate::catalog::Package| p.name@),
            pred == (|n: Seq<char>| is_infix(lower_of(query@), lower_of(n))),
            i <= catalog.packages@.len(),
            names_of(r@) == all.subrange(0, i as int).filter(pred),
        decreases catalog.packages@.len() - i,
    {
        let ghost before = r@;
        let name = &catalog.packages[i].name;
        let ghost next = all.subrange(0, i + 1);
        proof {
            reveal_with_fuel(Seq::filter, 1);
            assert(next.drop_last() =~= all.subrange(0, i as int));
            assert(next.last() == name@);
        }
        let lowered = lowercase(name.as_str());
        if contains_text(lowered.as_str(), q.as_str()) {
            r.push(name.clone());
            assert(names_of(r@) =~= names_of(before).push(name@));
        }
        i = i + 1;
    }
    assert(all.subrange(0, i as int) =~= all);
    r
}

} // verus!
