use vstd::prelude::*;

verus! {

/// A package as the ledger records it: the files it owns, relative to the
/// install root.
#[derive(Debug, Clone, PartialEq, Eq)]
pub struct InstalledPackage {
    pub name: String,
    pub version: String,
    pub contents: Vec<String>,
}

/// What the ledger knows of one installed package.
pub struct InstalledView {
    pub name: Seq<char>,
    pub version: Seq<char>,
    pub contents: Seq<Seq<char>>,
}

impl View for InstalledPackage {
    type V = InstalledView;

    open spec fn view(&self) -> InstalledView {
        InstalledView {
            name: self.name@,
            version: self.version@,
            contents: crate::catalog::names_of(self.contents@),
        }
    }
}

/// Copies a list of strings.
pub fn copy_strings(v: &Vec<String>) -> (r: Vec<String>)
    ensures
        r@ == v@,
{
    let mut r: Vec<String> = Vec::new();
    let mut i: usize = 0;
    while i < v.len()
        invariant
            i <= v@.len(),
            r@ == v@.subrange(0, i as int),
        decreases v@.len() - i,
    {
        r.push(v[i].clone());
        i = i + 1;
    }
    assert(r@ =~= v@);
    r
}

/// The entries of a ledger, in the order they were first recorded.
struct Entries {
    packages: Vec<InstalledPackage>,
}

impl View for Entries {
    type V = Map<Seq<char>, InstalledView>;

    closed spec fn view(&self) -> Map<Seq<char>, InstalledView> {
        Map::new(
            |n: Seq<char>| self.holds(n),
            |n: Seq<char>| self.packages@[self.index_of(n)]@,
        )
    }
}

impl Entries {
    closed spec fn holds(&self, n: Seq<char>) -> bool {
        exists|i: int| 0 <= i < self.packages@.len() && self.packages@[i].name@ == n
    }

    closed spec fn index_of(&self, n: Seq<char>) -> int {
        choose|i: int| 0 <= i < self.packages@.len() && self.packages@[i].name@ == n
    }

    /// No two entries share a name.
    closed spec fn wf(&self) -> bool {
        forall|i: int, j: int|
            0 <= i < self.packages@.len() && 0 <= j < self.packages@.len() && i != j
                ==> self.packages@[i].name@ != self.packages@[j].name@
    }

    proof fn lemma_at(&self, i: int)
        requires
            self.wf(),
            0 <= i < self.packages@.len(),
        ensures
            self@.contains_key(self.packages@[i].name@),
            self.index_of(self.packages@[i].name@) == i,
            self@[self.packages@[i].name@] == self.packages@[i]@,
    {
        let n = self.packages@[i].name@;
        assert(self.holds(n));
    }

    /// An empty ledger.
    fn new() -> (r: Entries)
        ensures
            r.wf(),
            r@ == Map::<Seq<char>, InstalledView>::empty(),
    {
        let r = Entries { packages: Vec::new() };
        assert(r@ =~= Map::<Seq<char>, InstalledView>::empty());
        r
    }

    /// Position of the entry named `name`.
    fn position(&self, name: &str) -> (r: Option<usize>)
        requires
            self.wf(),
        ensures
            r.is_none() == !self@.contains_key(name@),
            r.is_some() ==> r.unwrap() < self.packages@.len() && self.packages@[r.unwrap() as int].name@
                == name@,
    {
        let key = name.to_owned();
        let mut i: usize = 0;
        while i < self.packages.len()
            invariant
                key@ == name@,
                i <= self.packages@.len(),
                forall|j: int| 0 <= j < i ==> self.packages@[j].name@ != name@,
            decreases self.packages@.len() - i,
        {
            if self.packages[i].name == key {
                return Some(i);
            }
            i = i + 1;
        }
        None
    }

    /// Whether a package named `name` is installed.
    fn contains(&self, name: &str) -> (r: bool)
        requires
            self.wf(),
        ensures
            r == self@.contains_key(name@),
    {
        self.position(name).is_some()
    }

    /// The entry of the package named `name`.
    fn get(&self, name: &str) -> (r: Option<&InstalledPackage>)
        requires
            self.wf(),
        ensures
            r.is_none() == !self@.contains_key(name@),
            r.is_some() ==> r.unwrap()@ == self@[name@],
    {
        match self.position(name) {
            Some(i) => {
                proof {
                    self.lemma_at(i as int);
                }
                Some(&self.packages[i])
            },
            None => None,
        }
    }

    /// Number of installed packages.
    fn len(&self) -> (r: usize)
        requires
            self.wf(),
        ensures
            r == self@.len(),
    {
        proof {
            self.lemma_len();
        }
        self.packages.len()
    }

    proof fn lemma_len(&self)
        requires
            self.wf(),
        ensures
            self@.len() == self.packages@.len(),
    {
        let names = self.packages@.map_values(|p: InstalledPackage| p.name@);
        assert forall|i: int, j: int| 0 <= i < j < names.len() implies names[i] != names[j] by {}
        names.unique_seq_to_set();
        assert(self@.dom() =~= names.to_set()) by {
            assert forall|n: Seq<char>| self@.dom().contains(n) implies names.to_set().contains(n) by {
                let i = self.index_of(n);
                assert(names[i] == n);
            }
            assert forall|n: Seq<char>| names.to_set().contains(n) implies self@.dom().contains(n) by {
                let i = choose|i: int| 0 <= i < names.len() && names[i] == n;
                assert(self.holds(n));
            }
        }
    }

    /// The entries, in the order they were first recorded.
    fn entries(&self) -> (r: &Vec<InstalledPackage>)
        requires
            self.wf(),
        ensures
            forall|i: int| 0 <= i < r@.len() ==> self@.contains_key(#[trigger] r@[i].name@) && self@[r@[i].name@] == r@[i]@,
            forall|n: Seq<char>| self@.contains_key(n) ==> exists|i: int| 0 <= i < r@.len() && #[trigger] r@[i].name@ == n,
    {
        proof {
            assert forall|i: int| 0 <= i < self.packages@.len() implies self@.contains_key(#[trigger] self.packages@[i].name@) && self@[self.packages@[i].name@] == self.packages@[i]@ by {
                self.lemma_at(i);
            }
        }
        &self.packages
    }

    /// Records `pkg`, replacing any entry of the same name.
    fn insert(&mut self, pkg: InstalledPackage)
        requires
            old(self).wf(),
        ensures
            final(self).wf(),
            final(self)@ == old(self)@.insert(pkg.name@, pkg@),
    {
        let ghost name = pkg.name@;
        let ghost pv = pkg@;
        let pos = self.position(pkg.name.as_str());
        match pos {
            Some(i) => {
                self.packages.set(i, pkg);
            },
            None => {
                self.packages.push(pkg);
            },
        }
        proof {
            let target = old(self)@.insert(name, pv);
            let last = self.packages@.len() - 1;
            let k = if pos.is_some() { pos.unwrap() as int } else { last };
            assert(self.packages@[k].name@ == name);
            assert(self.holds(name));
            assert forall|n: Seq<char>| #[trigger] self@.contains_key(n) <==> target.contains_key(n) by {
                if target.contains_key(n) && n != name {
                    let j = old(self).index_of(n);
                    assert(self.packages@[j].name@ == n);
                }
                if self@.contains_key(n) && n != name {
                    let j = self.index_of(n);
                    assert(old(self).packages@[j].name@ == n);
                }
            }
            self.lemma_at(k);
            assert forall|n: Seq<char>| #[trigger] self@.contains_key(n) && n != name implies self@[n] == target[n] by {
                let j = old(self).index_of(n);
                old(self).lemma_at(j);
                assert(self.packages@[j] == old(self).packages@[j]);
                self.lemma_at(j);
            }
            assert(self@ =~= target);
        }
    }

    /// Takes out the entry named `name` and hands it back.
    fn remove(&mut self, name: &str) -> (r: Option<InstalledPackage>)
        requires
            old(self).wf(),
        ensures
            final(self).wf(),
            final(self)@ == old(self)@.remove(name@),
            r.is_none() == !old(self)@.contains_key(name@),
            r.is_some() ==> r.unwrap()@ == old(self)@[name@],
            r.is_some() ==> r.unwrap().name@ == name@,
    {
        match self.position(name) {
            Some(i) => {
                proof {
                    old(self).lemma_at(i as int);
                }
                let p = self.packages.remove(i);
                proof {
                    let target = old(self)@.remove(name@);
                    assert forall|n: Seq<char>| #[trigger] self@.contains_key(n) <==> target.contains_key(n) by {
                        if target.contains_key(n) {
                            let j = old(self).index_of(n);
                            if j < i {
                                assert(self.packages@[j].name@ == n);
                            } else {
                                assert(self.packages@[j - 1].name@ == n);
                            }
                        }
                        if self@.contains_key(n) {
                            let j = self.index_of(n);
                            if j < i {
                                assert(old(self).packages@[j].name@ == n);
                            } else {
                                assert(old(self).packages@[j + 1].name@ == n);
                            }
                        }
                    }
                    assert forall|n: Seq<char>| #[trigger] self@.contains_key(n) implies self@[n] == target[n] by {
                        let j = self.index_of(n);
                        self.lemma_at(j);
                        if j < i {
                            old(self).lemma_at(j);
                        } else {
                            old(self).lemma_at(j + 1);
                        }
                    }
                    assert(self@ =~= target);
                }
                Some(p)
            },
            None => {
                assert(self@ =~= old(self)@.remove(name@));
                None
            },
        }
    }
}

/// The record of installed packages, keyed by name: at most one entry per
/// name.
pub struct Ledger {
    inner: Entries,
}

impl View for Ledger {
    type V = Map<Seq<char>, InstalledView>;

    closed spec fn view(&self) -> Map<Seq<char>, InstalledView> {
        self.inner@
    }
}

impl Ledger {
    #[verifier::type_invariant]
    closed spec fn inv(&self) -> bool {
        self.inner.wf()
    }

    /// An empty ledger.
    pub fn new() -> (r: Ledger)
        ensures
            r@ == Map::<Seq<char>, InstalledView>::empty(),
    {
        Ledger { inner: Entries::new() }
    }

    /// Whether a package named `name` is installed.
    pub fn contains(&self, name: &str) -> (r: bool)
        ensures
            r == self@.contains_key(name@),
    {
        proof {
            use_type_invariant(self);
        }
        self.inner.contains(name)
    }

    /// The entry of the package named `name`.
    pub fn get(&self, name: &str) -> (r: Option<&InstalledPackage>)
        ensures
            r.is_none() == !self@.contains_key(name@),
            r.is_some() ==> r.unwrap()@ == self@[name@],
    {
        proof {
            use_type_invariant(self);
        }
        self.inner.get(name)
    }

    /// Number of installed packages.
    pub fn len(&self) -> (r: usize)
        ensures
            r == self@.len(),
    {
        proof {
            use_type_invariant(self);
        }
        self.inner.len()
    }

    /// The entries, in the order they were first recorded.
    pub fn entries(&self) -> (r: &Vec<InstalledPackage>)
        ensures
            forall|i: int| 0 <= i < r@.len() ==> self@.contains_key(#[trigger] r@[i].name@) && self@[r@[i].name@] == r@[i]@,
            forall|n: Seq<char>| self@.contains_key(n) ==> exists|i: int| 0 <= i < r@.len() && #[trigger] r@[i].name@ == n,
    {
        proof {
            use_type_invariant(self);
        }
        self.inner.entries()
    }

    /// Records `pkg`, replacing any entry of the same name.
    pub fn insert(&mut self, pkg: InstalledPackage)
        ensures
            final(self)@ == old(self)@.insert(pkg.name@, pkg@),
    {
        proof {
            use_type_invariant(&*self);
        }
        let mut e = Entries::new();
        std::mem::swap(&mut e, &mut self.inner);
        e.insert(pkg);
        self.inner = e;
    }

    /// Takes out the entry named `name` and hands it back; `None`, with the
    /// ledger unchanged, where no such package is installed.
    pub fn remove(&mut self, name: &str) -> (r: Option<InstalledPackage>)
        ensures
            final(self)@ == old(self)@.remove(name@),
            r.is_none() == !old(self)@.contains_key(name@),
            r.is_some() ==> r.unwrap()@ == old(self)@[name@],
            r.is_some() ==> r.unwrap().name@ == name@,
    {
        proof {
            use_type_invariant(&*self);
        }
        let mut e = Entries::new();
        std::mem::swap(&mut e, &mut self.inner);
        let r = e.remove(name);
        self.inner = e;
        r
    }
}

/// Uninstalling takes out the package's own entry and leaves every other
/// entry as it was; a second uninstall of the same name finds nothing and
/// changes nothing.
pub proof fn lemma_uninstall_twice(l: Map<Seq<char>, InstalledView>, n: Seq<char>)
    ensures
        !l.remove(n).contains_key(n),
        l.remove(n).remove(n) == l.remove(n),
        forall|m: Seq<char>|
            m != n ==> (#[trigger] l.remove(n).contains_key(m) == l.contains_key(m)) && (l.contains_key(m)
                ==> l.remove(n)[m] == l[m]),
{
    assert(l.remove(n).remove(n) =~= l.remove(n));
}

} // verus!
