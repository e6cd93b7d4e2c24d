use vstd::prelude::*;
use crate::catalog::{name_lt, names_of, Catalog, Package};
use crate::ledger::{InstalledView, Ledger};

verus! {

/// `s` ends with `suffix`.
pub open spec fn ends_with(s: Seq<char>, suffix: Seq<char>) -> bool {
    suffix.len() <= s.len() && s.subrange(s.len() - suffix.len(), s.len() as int) == suffix
}

/// A content path answers to `q` when it is `q`, or when its last segment is
/// `q` (which covers a binary under any `bin/` directory).
pub open spec fn path_matches(c: Seq<char>, q: Seq<char>) -> bool {
    c == q || ends_with(c, seq!['/'] + q)
}

/// The package's artifact for `arch` places a path that answers to `q`.
pub open spec fn provides(p: Package, arch: Seq<char>, q: Seq<char>) -> bool {
    p.has_arch(arch) && exists|i: int|
        0 <= i < p.artifact(arch).contents@.len() && path_matches(
            #[trigger] names_of(p.artifact(arch).contents@)[i],
            q,
        )
}

/// The package at `i` is the first in catalog order that answers to `q`.
pub open spec fn is_first_provider(cat: &Catalog, arch: Seq<char>, q: Seq<char>, i: int) -> bool {
    &&& 0 <= i < cat.packages@.len()
    &&& provides(cat.packages@[i], arch, q)
    &&& forall|j: int| 0 <= j < i ==> !provides(#[trigger] cat.packages@[j], arch, q)
}

/// Some package of the catalog answers to `q`.
pub open spec fn has_provider(cat: &Catalog, arch: Seq<char>, q: Seq<char>) -> bool {
    exists|i: int| 0 <= i < cat.packages@.len() && provides(#[trigger] cat.packages@[i], arch, q)
}

/// Whether `c[from..]` is `q`, character by character.
fn tail_equals(c: &str, from: usize, q: &str, qlen: usize) -> (r: bool)
    requires
        qlen == q@.len(),
        from + qlen == c@.len(),
        from + qlen <= usize::MAX,
    ensures
        r == (c@.subrange(from as int, c@.len() as int) == q@),
{
    let mut i: usize = 0;
    while i < qlen
        invariant
            qlen == q@.len(),
            from + qlen == c@.len(),
            from + qlen <= usize::MAX,
            i <= qlen,
            forall|j: int| 0 <= j < i ==> c@[from + j] == q@[j],
        decreases qlen - i,
    {
        if c.get_char(from + i) != q.get_char(i) {
            assert(c@.subrange(from as int, c@.len() as int)[i as int] != q@[i as int]);
            return false;
        }
        i = i + 1;
    }
    assert(c@.subrange(from as int, c@.len() as int) =~= q@);
    true
}

/// Whether the content path `c` answers to the query `q`.
pub fn content_matches(c: &str, q: &str) -> (r: bool)
    ensures
        r == path_matches(c@, q@),
{
    let clen = c.unicode_len();
    let qlen = q.unicode_len();
    let ghost slashed = seq!['/'] + q@;
    if clen == qlen {
        let r = tail_equals(c, 0, q, qlen);
        assert(c@.subrange(0, c@.len() as int) =~= c@);
        proof {
            if ends_with(c@, slashed) {
                assert(slashed.len() > c@.len());
            }
        }
        r
    } else if clen > qlen {
        let from = clen - qlen;
        let slash = c.get_char(from - 1) == '/';
        let tail = tail_equals(c, from, q, qlen);
        proof {
            let tail_seq = c@.subrange(from - 1, c@.len() as int);
            assert(tail_seq =~= seq![c@[from - 1]] + c@.subrange(from as int, c@.len() as int));
            if slash && tail {
                assert(tail_seq =~= slashed);
            }
            if ends_with(c@, slashed) {
                assert(tail_seq[0] == slashed[0]);
                assert(c@.subrange(from as int, c@.len() as int) =~= tail_seq.subrange(1, tail_seq.len() as int));
                assert(slashed.subrange(1, slashed.len() as int) =~= q@);
            }
        }
        slash && tail
    } else {
        false
    }
}

/// Whether the package's artifact for `arch` places a path that answers to
/// `query`.
pub fn package_provides(package: &Package, query: &str, arch: &str) -> (r: bool)
    ensures
        r == provides(*package, arch@, query@),
{
    match package.artifact_for(arch) {
        Some(artifact) => {
            let mut k: usize = 0;
            while k < artifact.contents.len()
                invariant
                    *artifact == package.artifact(arch@),
                    package.has_arch(arch@),
                    k <= artifact.contents@.len(),
                    forall|m: int|
                        0 <= m < k ==> !path_matches(#[trigger] names_of(artifact.contents@)[m], query@),
                decreases artifact.contents@.len() - k,
            {
                if content_matches(artifact.contents[k].as_str(), query) {
                    assert(path_matches(names_of(artifact.contents@)[k as int], query@));
                    return true;
                }
                k = k + 1;
            }
            false
        },
        None => false,
    }
}

/// The name of the first package in catalog order whose artifact for `arch`
/// places a path that answers to `query`.
pub fn find_package_by_content(catalog: &Catalog, query: &str, arch: &str) -> (r: Option<String>)
    ensures
        r.is_none() <==> !has_provider(catalog, arch@, query@),
        r.is_some() ==> exists|i: int|
            is_first_provider(catalog, arch@, query@, i) && #[trigger] catalog.packages@[i].name@
                == r.unwrap()@,
        catalog.wf() && r.is_some() ==> provides(catalog.package(r.unwrap()@), arch@, query@),
        catalog.wf() && r.is_some() ==> forall|j: int|
            0 <= j < catalog.packages@.len() && provides(#[trigger] catalog.packages@[j], arch@, query@)
                ==> catalog.packages@[j].name@ == r.unwrap()@ || name_lt(
                r.unwrap()@,
                catalog.packages@[j].name@,
            ),
{
    let mut i: usize = 0;
    while i < catalog.packages.len()
        invariant
            i <= catalog.packages@.len(),
            forall|j: int| 0 <= j < i ==> !provides(#[trigger] catalog.packages@[j], arch@, query@),
        decreases catalog.packages@.len() - i,
    {
        if package_provides(&catalog.packages[i], query, arch) {
            assert(is_first_provider(catalog, arch@, query@, i as int));
            proof {
                if catalog.wf() {
                    catalog.lemma_unique(i as int);
                    assert forall|j: int|
                        0 <= j < catalog.packages@.len() && provides(#[trigger] catalog.packages@[j], arch@, query@)
                            && j != i implies name_lt(
                        catalog.packages@[i as int].name@,
                        catalog.packages@[j].name@,
                    ) by {
                        catalog.lemma_ascending(i as int, j);
                    }
                }
            }
            let name = catalog.packages[i].name.clone();
            assert(catalog.packages@[i as int].name@ == name@);
            return Some(name);
        }
        i = i + 1;
    }
    None
}

/// The package at `i` is the first in catalog order that answers to `q`
/// and is installed.
pub open spec fn is_first_installed_provider(
    cat: &Catalog,
    led: Map<Seq<char>, InstalledView>,
    arch: Seq<char>,
    q: Seq<char>,
    i: int,
) -> bool {
    &&& 0 <= i < cat.packages@.len()
    &&& provides(cat.packages@[i], arch, q)
    &&& led.contains_key(cat.packages@[i].name@)
    &&& forall|j: int|
        0 <= j < i ==> !(provides(#[trigger] cat.packages@[j], arch, q) && led.contains_key(
            cat.packages@[j].name@,
        ))
}

/// Some installed package of the catalog answers to `q`.
pub open spec fn has_installed_provider(
    cat: &Catalog,
    led: Map<Seq<char>, InstalledView>,
    arch: Seq<char>,
    q: Seq<char>,
) -> bool {
    exists|i: int|
        0 <= i < cat.packages@.len() && provides(#[trigger] cat.packages@[i], arch, q)
            && led.contains_key(cat.packages@[i].name@)
}

/// The name of the first installed package, in catalog order, whose
/// artifact for `arch` places a path that answers to `query`.
pub fn find_installed_by_content(catalog: &Catalog, installed: &Ledger, query: &str, arch: &str) -> (r:
    Option<String>)
    ensures
        r.is_none() <==> !has_installed_provider(catalog, installed@, arch@, query@),
        r.is_some() ==> exists|i: int|
            is_first_installed_provider(catalog, installed@, arch@, query@, i)
                && #[trigger] catalog.packages@[i].name@ == r.unwrap()@,
        catalog.wf() && r.is_some() ==> provides(catalog.package(r.unwrap()@), arch@, query@),
        catalog.wf() && r.is_some() ==> forall|j: int|
            0 <= j < catalog.packages@.len() && provides(#[trigger] catalog.packages@[j], arch@, query@)
                && installed@.contains_key(catalog.packages@[j].name@)
                ==> catalog.packages@[j].name@ == r.unwrap()@ || name_lt(
                r.unwrap()@,
                catalog.packages@[j].name@,
            ),
{
    let mut i: usize = 0;
    while i < catalog.packages.len()
        invariant
            i <= catalog.packages@.len(),
            forall|j: int|
                0 <= j < i ==> !(provides(#[trigger] catalog.packages@[j], arch@, query@)
                    && installed@.contains_key(catalog.packages@[j].name@)),
        decreases catalog.packages@.len() - i,
    {
        if package_provides(&catalog.packages[i], query, arch) && installed.contains(
            catalog.packages[i].name.as_str(),
        ) {
            assert(is_first_installed_provider(catalog, installed@, arch@, query@, i as int));
            proof {
                if catalog.wf() {
                    catalog.lemma_unique(i as int);
                    assert forall|j: int|
                        0 <= j < catalog.packages@.len() && provides(#[trigger] catalog.packages@[j], arch@, query@)
                            && installed@.contains_key(catalog.packages@[j].name@) && j != i implies name_lt(
                        catalog.packages@[i as int].name@,
                        catalog.packages@[j].name@,
                    ) by {
                        catalog.lemma_ascending(i as int, j);
                    }
                }
            }
            let name = catalog.packages[i].name.clone();
            assert(catalog.packages@[i as int].name@ == name@);
            return Some(name);
        }
        i = i + 1;
    }
    None
}

/// A package whose artifact places `c`, a path that ends in `bin/` followed
/// by `q`, answers to `q`.
pub proof fn lemma_bin_path_provides(p: Package, arch: Seq<char>, q: Seq<char>, k: int)
    requires
        p.has_arch(arch),
        0 <= k < p.artifact(arch).contents@.len(),
        ends_with(p.artifact(arch).contents@[k]@, seq!['b', 'i', 'n', '/'] + q),
    ensures
        provides(p, arch, q),
{
    let c = p.artifact(arch).contents@[k]@;
    let b = seq!['b', 'i', 'n', '/'] + q;
    let s = seq!['/'] + q;
    assert(c.subrange(c.len() - s.len(), c.len() as int) =~= b.subrange(3, b.len() as int));
    assert(b.subrange(3, b.len() as int) =~= s);
    assert(names_of(p.artifact(arch).contents@)[k] == c);
}

/// A package none of whose paths ends in `q` does not answer to `q`.
pub proof fn lemma_no_suffix_no_match(p: Package, arch: Seq<char>, q: Seq<char>)
    requires
        forall|k: int|
            0 <= k < p.artifact(arch).contents@.len() ==> !ends_with(
                #[trigger] p.artifact(arch).contents@[k]@,
                q,
            ),
    ensures
        !provides(p, arch, q),
{
    if provides(p, arch, q) {
        let k = choose|k: int|
            0 <= k < p.artifact(arch).contents@.len() && path_matches(
                #[trigger] names_of(p.artifact(arch).contents@)[k],
                q,
            );
        let c = p.artifact(arch).contents@[k]@;
        assert(names_of(p.artifact(arch).contents@)[k] == c);
        if c == q {
            assert(c.subrange(0, c.len() as int) =~= c);
        } else {
            let s = seq!['/'] + q;
            assert(c.subrange(c.len() - q.len(), c.len() as int) =~= s.subrange(1, s.len() as int));
            assert(s.subrange(1, s.len() as int) =~= q);
        }
    }
}

} // verus!
