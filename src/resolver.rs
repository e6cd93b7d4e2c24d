use vstd::prelude::*;
use crate::catalog::{list_contains, names_of, Catalog};
use crate::error::PieError;
use crate::ledger::{InstalledView, Ledger};

verus! {

/// `x` is a catalog package that lists `y` among its dependencies, and `y`
/// is not installed: installing `x` calls for installing `y`.
pub open spec fn needs(
    cat: &Catalog,
    led: Map<Seq<char>, InstalledView>,
    x: Seq<char>,
    y: Seq<char>,
) -> bool {
    &&& cat.has(x)
    &&& cat.package(x).deps().contains(y)
    &&& !led.contains_key(y)
}

/// Each name in `p` needs the next.
pub open spec fn is_chain(cat: &Catalog, led: Map<Seq<char>, InstalledView>, p: Seq<Seq<char>>) -> bool {
    forall|k: int| 0 <= k < p.len() - 1 ==> #[trigger] needs(cat, led, p[k], p[k + 1])
}

/// Installing `t` calls, directly or through other packages, for installing `y`.
pub open spec fn reaches(
    cat: &Catalog,
    led: Map<Seq<char>, InstalledView>,
    t: Seq<char>,
    y: Seq<char>,
) -> bool {
    exists|p: Seq<Seq<char>>|
        p.len() >= 2 && p[0] == t && p[p.len() - 1] == y && #[trigger] is_chain(cat, led, p)
}

/// `r` is a schedule of the packages that installing `t` calls for: each
/// once, never `t` itself, each of them reached from `t`, and every package
/// that `t` or a scheduled package needs is scheduled (or is `t`).
pub open spec fn is_schedule(
    cat: &Catalog,
    led: Map<Seq<char>, InstalledView>,
    t: Seq<char>,
    r: Seq<Seq<char>>,
) -> bool {
    &&& r.no_duplicates()
    &&& forall|i: int|
        0 <= i < r.len() ==> r[i] != t && cat.has(r[i]) && reaches(cat, led, t, #[trigger] r[i])
    &&& forall|x: Seq<char>, y: Seq<char>|
        (x == t || r.contains(x)) && #[trigger] needs(cat, led, x, y) ==> y == t || r.contains(y)
}

/// Each package that a scheduled package needs comes before it in `r`,
/// unless it lies on a cycle back to that package.
pub open spec fn dependencies_first(
    cat: &Catalog,
    led: Map<Seq<char>, InstalledView>,
    r: Seq<Seq<char>>,
) -> bool {
    forall|i: int, y: Seq<char>|
        0 <= i < r.len() && #[trigger] needs(cat, led, r[i], y) ==> r.subrange(0, i).contains(y)
            || reaches(cat, led, y, r[i])
}

/// A chain that ends in `x` makes each of its names reach `x`.
proof fn lemma_chain_suffix(
    cat: &Catalog,
    led: Map<Seq<char>, InstalledView>,
    p: Seq<Seq<char>>,
    s: int,
)
    requires
        is_chain(cat, led, p),
        0 <= s < p.len() - 1,
    ensures
        reaches(cat, led, p[s], p[p.len() - 1]),
{
    let q = p.subrange(s, p.len() as int);
    assert forall|k: int| 0 <= k < q.len() - 1 implies #[trigger] needs(cat, led, q[k], q[k + 1]) by {
        assert(q[k] == p[s + k] && q[k + 1] == p[s + k + 1]);
    }
    assert(is_chain(cat, led, q));
}

proof fn lemma_chain_covered(
    cat: &Catalog,
    led: Map<Seq<char>, InstalledView>,
    t: Seq<char>,
    r: Seq<Seq<char>>,
    p: Seq<Seq<char>>,
    k: int,
)
    requires
        is_schedule(cat, led, t, r),
        is_chain(cat, led, p),
        p.len() >= 1,
        p[0] == t,
        0 <= k < p.len(),
    ensures
        p[k] == t || r.contains(p[k]),
    decreases k,
{
    if k > 0 {
        lemma_chain_covered(cat, led, t, r, p, k - 1);
        let j = k - 1;
        assert(needs(cat, led, p[j], p[j + 1]));
    }
}

/// A schedule for `t` holds every package that installing `t` calls for, so
/// when resolution succeeds no such package is missing from the catalog.
pub proof fn lemma_schedule_covers(
    cat: &Catalog,
    led: Map<Seq<char>, InstalledView>,
    t: Seq<char>,
    r: Seq<Seq<char>>,
    y: Seq<char>,
)
    requires
        is_schedule(cat, led, t, r),
        reaches(cat, led, t, y),
    ensures
        y == t || r.contains(y),
        cat.has(t) ==> cat.has(y),
{
    let p = choose|p: Seq<Seq<char>>|
        p.len() >= 2 && p[0] == t && p[p.len() - 1] == y && #[trigger] is_chain(cat, led, p);
    lemma_chain_covered(cat, led, t, r, p, p.len() - 1);
    if r.contains(y) {
        let w = choose|w: int| 0 <= w < r.len() && r[w] == y;
        assert(cat.has(r[w]));
    }
}

/// A package that declares no dependencies has an empty schedule.
pub proof fn lemma_no_dependencies_empty_schedule(
    cat: &Catalog,
    led: Map<Seq<char>, InstalledView>,
    t: Seq<char>,
    r: Seq<Seq<char>>,
)
    requires
        cat.has(t),
        cat.package(t).dependencies@.len() == 0,
        is_schedule(cat, led, t, r),
    ensures
        r.len() == 0,
{
    if r.len() > 0 {
        assert(reaches(cat, led, t, r[0]));
        let p = choose|p: Seq<Seq<char>>|
            p.len() >= 2 && p[0] == t && p[p.len() - 1] == r[0] && #[trigger] is_chain(cat, led, p);
        let k: int = 0;
        assert(needs(cat, led, p[k], p[k + 1]));
        assert(cat.package(t).deps().len() == 0);
    }
}

/// In a diamond, where `t` needs `b` and `c`, both need `d`, and `d` reaches
/// neither of them, `d` is scheduled exactly once, before both `b` and `c`.
pub proof fn lemma_diamond_order(
    cat: &Catalog,
    led: Map<Seq<char>, InstalledView>,
    t: Seq<char>,
    r: Seq<Seq<char>>,
    b: Seq<char>,
    c: Seq<char>,
    d: Seq<char>,
)
    requires
        is_schedule(cat, led, t, r),
        dependencies_first(cat, led, r),
        needs(cat, led, t, b),
        needs(cat, led, t, c),
        needs(cat, led, b, d),
        needs(cat, led, c, d),
        b != t,
        c != t,
        d != t,
        !reaches(cat, led, d, b),
        !reaches(cat, led, d, c),
    ensures
        exists|k: int| 0 <= k < r.len() && r[k] == d,
        forall|k1: int, k2: int| 0 <= k1 < r.len() && 0 <= k2 < r.len() && r[k1] == d && r[k2] == d ==> k1 == k2,
        forall|kd: int, kb: int| 0 <= kd < r.len() && 0 <= kb < r.len() && r[kd] == d && r[kb] == b ==> kd < kb,
        forall|kd: int, kc: int| 0 <= kd < r.len() && 0 <= kc < r.len() && r[kd] == d && r[kc] == c ==> kd < kc,
{
    assert(r.contains(b));
    assert(r.contains(d));
    assert forall|kd: int, kb: int|
        0 <= kd < r.len() && 0 <= kb < r.len() && r[kd] == d && r[kb] == b implies kd < kb by {
        assert(needs(cat, led, r[kb], d));
        let w = choose|w: int| 0 <= w < r.subrange(0, kb).len() && r.subrange(0, kb)[w] == d;
        assert(r[w] == d);
    }
    assert forall|kd: int, kc: int|
        0 <= kd < r.len() && 0 <= kc < r.len() && r[kd] == d && r[kc] == c implies kd < kc by {
        assert(needs(cat, led, r[kc], d));
        let w = choose|w: int| 0 <= w < r.subrange(0, kc).len() && r.subrange(0, kc)[w] == d;
        assert(r[w] == d);
    }
}

/// Number of unmarked entries.
spec fn unmarked(v: Seq<bool>) -> nat
    decreases v.len(),
{
    if v.len() == 0 {
        0
    } else {
        unmarked(v.drop_last()) + if v.last() {
            0nat
        } else {
            1nat
        }
    }
}

proof fn lemma_mark(v: Seq<bool>, j: int)
    requires
        0 <= j < v.len(),
        !v[j],
    ensures
        unmarked(v.update(j, true)) + 1 == unmarked(v),
    decreases v.len(),
{
    if j == v.len() - 1 {
        assert(v.update(j, true).drop_last() =~= v.drop_last());
    } else {
        lemma_mark(v.drop_last(), j);
        assert(v.update(j, true).drop_last() =~= v.drop_last().update(j, true));
    }
}

/// Steps left on a stack of (package index, next dependency) frames.
spec fn work(cat: &Catalog, s: Seq<(usize, usize)>) -> nat
    decreases s.len(),
{
    if s.len() == 0 {
        0
    } else {
        work(cat, s.drop_last()) + (cat.packages@[s.last().0 as int].dependencies@.len() - s.last().1
            + 1) as nat
    }
}

spec fn frame_names(cat: &Catalog, s: Seq<(usize, usize)>) -> Seq<Seq<char>> {
    s.map_values(|f: (usize, usize)| cat.packages@[f.0 as int].name@)
}

/// The dependencies of the package at `x` before position `k` are installed,
/// scheduled in `out`, or on the stack.
spec fn frame_done(
    cat: &Catalog,
    led: Map<Seq<char>, InstalledView>,
    x: int,
    k: int,
    out: Seq<Seq<char>>,
    on_stack: Seq<Seq<char>>,
) -> bool {
    forall|q: int|
        0 <= q < k ==> !led.contains_key(#[trigger] cat.packages@[x].deps()[q]) ==> out.contains(
            cat.packages@[x].deps()[q],
        ) || on_stack.contains(cat.packages@[x].deps()[q])
}

/// The packages to install before `package_name`, dependencies first: a
/// depth-first walk of the declared dependencies that skips installed
/// packages and names already met, so that cycles end the walk and shared
/// dependencies come once. A name that the walk meets and the catalog lacks
/// fails the whole resolution.
#[verifier::rlimit(100)]
pub fn resolve_dependencies(catalog: &Catalog, package_name: &str, installed: &Ledger) -> (r:
    Result<Vec<String>, PieError>)
    ensures
        r is Ok ==> catalog.has(package_name@) && is_schedule(
            catalog,
            installed@,
            package_name@,
            names_of(r->Ok_0@),
        ) && dependencies_first(catalog, installed@, names_of(r->Ok_0@)),
        r is Err ==> r->Err_0 is NotFound && !catalog.has(r->Err_0->NotFound_0@) && (
        r->Err_0->NotFound_0@ == package_name@ || reaches(
            catalog,
            installed@,
            package_name@,
            r->Err_0->NotFound_0@,
        )),
{
    let root = match catalog.find(package_name) {
        Some(i) => i,
        None => {
            return Err(PieError::NotFound(package_name.to_owned()));
        },
    };
    let ghost t = package_name@;
    let ghost led = installed@;
    proof {
        catalog.lemma_package_at(t, root as int);
    }
    let mut visited: Vec<bool> = Vec::new();
    let mut i: usize = 0;
    while i < catalog.packages.len()
        invariant
            i <= catalog.packages@.len(),
            visited@.len() == i,
            forall|j: int| 0 <= j < i ==> !visited@[j],
        decreases catalog.packages@.len() - i,
    {
        visited.push(false);
        i = i + 1;
    }
    visited.set(root, true);
    let mut stack: Vec<(usize, usize)> = Vec::new();
    stack.push((root, 0));
    let mut out: Vec<String> = Vec::new();
    proof {
        assert(frame_names(catalog, stack@) =~= seq![t]);
    }
    while stack.len() > 0
        invariant
            led == installed@,
            t == package_name@,
            catalog.is_first(t, root as int),
            visited@.len() == catalog.packages@.len(),
            visited@[root as int],
            stack@.len() > 0 ==> stack@[0].0 == root,
            forall|s: int|
                0 <= s < stack@.len() ==> {
                    let x = #[trigger] stack@[s].0 as int;
                    &&& x < catalog.packages@.len()
                    &&& catalog.is_first(catalog.packages@[x].name@, x)
                    &&& stack@[s].1 <= catalog.packages@[x].dependencies@.len()
                    &&& visited@[x]
                    &&& frame_done(
                        catalog,
                        led,
                        x,
                        stack@[s].1 as int,
                        names_of(out@),
                        frame_names(catalog, stack@),
                    )
                },
            forall|s1: int, s2: int|
                0 <= s1 < s2 < stack@.len() ==> stack@[s1].0 != stack@[s2].0,
            stack@.len() > 0 ==> frame_names(catalog, stack@)[0] == t,
            is_chain(catalog, led, frame_names(catalog, stack@)),
            forall|j: int|
                0 <= j < visited@.len() && #[trigger] visited@[j] ==> j == root || frame_names(
                    catalog,
                    stack@,
                ).contains(catalog.packages@[j].name@) || names_of(out@).contains(
                    catalog.packages@[j].name@,
                ),
            forall|j: int|
                0 <= j < visited@.len() && #[trigger] visited@[j] ==> catalog.is_first(
                    catalog.packages@[j].name@,
                    j,
                ),
            names_of(out@).no_duplicates(),
            dependencies_first(catalog, led, names_of(out@)),
            forall|i: int|
                0 <= i < out@.len() ==> out@[i]@ != t && catalog.has(out@[i]@) && reaches(
                    catalog,
                    led,
                    t,
                    #[trigger] out@[i]@,
                ) && !frame_names(catalog, stack@).contains(out@[i]@),
            forall|x: Seq<char>, y: Seq<char>|
                names_of(out@).contains(x) && #[trigger] needs(catalog, led, x, y) ==> y == t
                    || names_of(out@).contains(y) || frame_names(catalog, stack@).contains(y),
            stack@.len() == 0 ==> forall|y: Seq<char>|
                #[trigger] needs(catalog, led, t, y) ==> y == t || names_of(out@).contains(y),
        decreases unmarked(visited@), work(catalog, stack@),
    {
        let top = stack.len() - 1;
        let (x, k) = stack[top];
        let ghost stack0 = stack@;
        let ghost names0 = frame_names(catalog, stack@);
        let ghost out0 = names_of(out@);
        let ghost nx = catalog.packages@[x as int].name@;
        proof {
            catalog.lemma_package_at(nx, x as int);
            assert(names0[top as int] == nx);
        }
        if k == catalog.packages[x].dependencies.len() {
            stack.pop();
            let ghost names1 = frame_names(catalog, stack@);
            proof {
                assert(stack@ =~= stack0.drop_last());
                assert(names1 =~= names0.drop_last());
                assert(stack0.drop_last() =~= stack@);
                assert(work(catalog, stack0) == work(catalog, stack@) + 1);
                assert forall|y: Seq<char>| #[trigger] needs(catalog, led, nx, y) implies out0.contains(y)
                    || names0.contains(y) by {
                    let q = choose|q: int|
                        0 <= q < catalog.packages@[x as int].deps().len()
                            && catalog.packages@[x as int].deps()[q] == y;
                }
                assert forall|k2: int| 0 <= k2 < names1.len() - 1 implies #[trigger] needs(
                    catalog,
                    led,
                    names1[k2],
                    names1[k2 + 1],
                ) by {
                    assert(names1[k2] == names0[k2] && names1[k2 + 1] == names0[k2 + 1]);
                }
                // `nx` is on the stack once
                assert forall|s1: int| 0 <= s1 < names1.len() implies names1[s1] != nx by {
                    let xs = stack@[s1].0 as int;
                    if names1[s1] == nx {
                        catalog.lemma_first_unique(nx, xs, x as int);
                    }
                }
            }
            if stack.len() > 0 {
                out.push(catalog.packages[x].name.clone());
                proof {
                    let out1 = names_of(out@);
                    assert(out1 =~= out0.push(nx));
                    assert(stack0[0].0 == root);
                    if nx == t {
                        catalog.lemma_first_unique(t, x as int, root as int);
                    }
                    assert(names0.len() >= 2 && names0[0] == t && names0[names0.len() - 1] == nx);
                    assert(is_chain(catalog, led, names0));
                    assert(reaches(catalog, led, t, nx));
                    assert(!names1.contains(nx));
                    assert forall|i2: int, y: Seq<char>|
                        0 <= i2 < out1.len() && #[trigger] needs(catalog, led, out1[i2], y) implies out1.subrange(
                        0,
                        i2,
                    ).contains(y) || reaches(catalog, led, y, out1[i2]) by {
                        if i2 < out0.len() {
                            assert(out1[i2] == out0[i2]);
                            assert(out1.subrange(0, i2) =~= out0.subrange(0, i2));
                        } else {
                            assert(out1.subrange(0, i2) =~= out0);
                            if !out0.contains(y) {
                                let w = choose|w: int| 0 <= w < names0.len() && names0[w] == y;
                                if w == top {
                                    let pp = seq![nx, nx];
                                    assert(needs(catalog, led, pp[0], pp[1]));
                                    assert(is_chain(catalog, led, pp));
                                } else {
                                    lemma_chain_suffix(catalog, led, names0, w);
                                }
                            }
                        }
                    }
                    assert forall|i: int| 0 <= i < out@.len() implies out@[i]@ != t && catalog.has(
                        out@[i]@,
                    ) && reaches(catalog, led, t, #[trigger] out@[i]@) && !names1.contains(
                        out@[i]@,
                    ) by {
                        if i < out@.len() - 1 {
                            assert(out0[i] == out@[i]@);
                            assert(out0.contains(out@[i]@));
                        }
                    }
                    assert forall|s2: int| 0 <= s2 < stack@.len() implies {
                        let x2 = #[trigger] stack@[s2].0 as int;
                        frame_done(catalog, led, x2, stack@[s2].1 as int, out1, names1)
                    } by {
                        let x2 = stack@[s2].0 as int;
                        assert(stack@[s2] == stack0[s2]);
                        assert(frame_done(catalog, led, x2, stack0[s2].1 as int, out0, names0));
                        assert forall|q: int|
                            0 <= q < stack@[s2].1 && !led.contains_key(
                                #[trigger] catalog.packages@[x2].deps()[q],
                            ) implies out1.contains(catalog.packages@[x2].deps()[q]) || names1.contains(
                            catalog.packages@[x2].deps()[q],
                        ) by {
                            let y = catalog.packages@[x2].deps()[q];
                            if out0.contains(y) {
                                let w = choose|w: int| 0 <= w < out0.len() && out0[w] == y;
                                assert(out1[w] == y);
                            } else if y == nx {
                                assert(out1[out1.len() - 1] == y);
                            } else {
                                let w = choose|w: int| 0 <= w < names0.len() && names0[w] == y;
                                assert(names1[w] == y);
                            }
                        }
                    }
                    assert forall|a: Seq<char>, y: Seq<char>|
                        out1.contains(a) && #[trigger] needs(catalog, led, a, y) implies y == t
                        || out1.contains(y) || names1.contains(y) by {
                        if out0.contains(y) {
                            let w = choose|w: int| 0 <= w < out0.len() && out0[w] == y;
                            assert(out1[w] == y);
                        } else if y == nx {
                            assert(out1[out1.len() - 1] == y);
                        } else if names0.contains(y) {
                            let w = choose|w: int| 0 <= w < names0.len() && names0[w] == y;
                            assert(names1[w] == y);
                        } else if a != nx {
                            let w = choose|w: int| 0 <= w < out1.len() && out1[w] == a;
                            assert(out0[w] == a);
                        }
                    }
                    assert forall|j: int|
                        0 <= j < visited@.len() && #[trigger] visited@[j] implies j == root
                        || names1.contains(catalog.packages@[j].name@) || out1.contains(
                        catalog.packages@[j].name@,
                    ) by {
                        let nj = catalog.packages@[j].name@;
                        if out0.contains(nj) {
                            let w = choose|w: int| 0 <= w < out0.len() && out0[w] == nj;
                            assert(out1[w] == nj);
                        } else if nj == nx {
                            assert(out1[out1.len() - 1] == nj);
                        } else if names0.contains(nj) {
                            let w = choose|w: int| 0 <= w < names0.len() && names0[w] == nj;
                            assert(names1[w] == nj);
                        }
                    }
                }
            } else {
                proof {
                    assert(x == root);
                    assert forall|j: int|
                        0 <= j < visited@.len() && #[trigger] visited@[j] implies j == root
                        || out0.contains(catalog.packages@[j].name@) by {
                        let nj = catalog.packages@[j].name@;
                        if !out0.contains(nj) {
                            assert(names0.contains(nj));
                            let w = choose|w: int| 0 <= w < names0.len() && names0[w] == nj;
                            catalog.lemma_first_unique(nj, j, root as int);
                        }
                    }
                }
            }
        } else {
            stack.set(top, (x, k + 1));
            proof {
                assert(frame_names(catalog, stack@) =~= names0);
                assert(stack@.drop_last() =~= stack0.drop_last());
                assert(work(catalog, stack0) == work(catalog, stack@) + 1);
            }
            let d = &catalog.packages[x].dependencies[k];
            let ghost dd = d@;
            proof {
                assert(catalog.packages@[x as int].deps()[k as int] == dd);
            }
            if !installed.contains(d.as_str()) && !list_contains(&out, d) {
                proof {
                    assert(needs(catalog, led, nx, dd));
                    let p = names0.push(dd);
                    assert forall|k2: int| 0 <= k2 < p.len() - 1 implies #[trigger] needs(
                        catalog,
                        led,
                        p[k2],
                        p[k2 + 1],
                    ) by {
                        if k2 < names0.len() - 1 {
                            assert(p[k2] == names0[k2] && p[k2 + 1] == names0[k2 + 1]);
                        }
                    }
                    assert(is_chain(catalog, led, p));
                    assert(reaches(catalog, led, t, dd));
                }
                match catalog.find(d.as_str()) {
                    None => {
                        let missing = d.clone();
                        assert(missing@ == dd);
                        assert(!catalog.has(dd));
                        assert(reaches(catalog, led, t, dd));
                        return Err(PieError::NotFound(missing));
                    },
                    Some(j) => {
                        if !visited[j] {
                            let ghost vis0 = visited@;
                            visited.set(j, true);
                            proof {
                                lemma_mark(vis0, j as int);
                            }
                            let ghost stack1 = stack@;
                            stack.push((j, 0));
                            proof {
                                let names2 = frame_names(catalog, stack@);
                                assert(names2 =~= names0.push(dd));
                                assert forall|s1: int, s2: int|
                                    0 <= s1 < s2 < stack@.len() implies stack@[s1].0 != stack@[s2].0 by {
                                    if s2 == stack@.len() - 1 {
                                        assert(visited@[stack1[s1].0 as int]);
                                    }
                                }
                                assert forall|k2: int| 0 <= k2 < names2.len() - 1 implies #[trigger] needs(
                                    catalog,
                                    led,
                                    names2[k2],
                                    names2[k2 + 1],
                                ) by {
                                    if k2 < names0.len() - 1 {
                                        assert(names2[k2] == names0[k2] && names2[k2 + 1] == names0[k2 + 1]);
                                    }
                                }
                                assert forall|s2: int| 0 <= s2 < stack@.len() implies {
                                    let x2 = #[trigger] stack@[s2].0 as int;
                                    frame_done(catalog, led, x2, stack@[s2].1 as int, out0, names2)
                                } by {
                                    let x2 = stack@[s2].0 as int;
                                    if s2 < stack@.len() - 1 {
                                        assert(stack@[s2] == stack1[s2]);
                                        assert(stack0[s2].0 == stack1[s2].0);
                                        assert(frame_done(catalog, led, x2, stack0[s2].1 as int, out0, names0));
                                        assert forall|q: int|
                                            0 <= q < stack@[s2].1 && !led.contains_key(
                                                #[trigger] catalog.packages@[x2].deps()[q],
                                            ) implies out0.contains(catalog.packages@[x2].deps()[q])
                                            || names2.contains(catalog.packages@[x2].deps()[q]) by {
                                            let y = catalog.packages@[x2].deps()[q];
                                            if s2 == top && q == k {
                                                assert(names2[names2.len() - 1] == y);
                                            } else if !out0.contains(y) {
                                                let w = choose|w: int| 0 <= w < names0.len() && names0[w] == y;
                                                assert(names2[w] == y);
                                            }
                                        }
                                    }
                                }
                                assert forall|a: Seq<char>, y: Seq<char>|
                                    out0.contains(a) && #[trigger] needs(catalog, led, a, y) implies y == t
                                    || out0.contains(y) || names2.contains(y) by {
                                    if !out0.contains(y) && y != t {
                                        let w = choose|w: int| 0 <= w < names0.len() && names0[w] == y;
                                        assert(names2[w] == y);
                                    }
                                }
                                assert forall|i: int| 0 <= i < out@.len() implies !names2.contains(
                                    #[trigger] out@[i]@,
                                ) by {
                                    assert(out0[i] == out@[i]@);
                                }
                                assert forall|j2: int|
                                    0 <= j2 < visited@.len() && #[trigger] visited@[j2] implies j2 == root
                                    || names2.contains(catalog.packages@[j2].name@) || out0.contains(
                                    catalog.packages@[j2].name@,
                                ) by {
                                    let nj = catalog.packages@[j2].name@;
                                    if j2 == j {
                                        assert(names2[names2.len() - 1] == nj);
                                    } else if j2 != root && !out0.contains(nj) {
                                        assert(vis0[j2]);
                                        let w = choose|w: int| 0 <= w < names0.len() && names0[w] == nj;
                                        assert(names2[w] == nj);
                                    }
                                }
                            }
                        } else {
                            proof {
                                let nj = catalog.packages@[j as int].name@;
                                assert(nj == dd);
                                if j == root {
                                    assert(names0[0] == dd);
                                }
                                assert(names0.contains(dd));
                            }
                        }
                    },
                }
            }
        }
    }
    Ok(out)
}

} // verus!
