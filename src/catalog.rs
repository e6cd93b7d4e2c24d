use vstd::prelude::*;

verus! {

/// The downloadable payload of a package for one architecture.
#[derive(Debug, Clone, PartialEq, Eq)]
pub struct Artifact {
    pub arch: String,
    pub url: String,
    /// Hex-encoded SHA-256 of the archive.
    pub sha256: String,
    pub size: u64,
    pub uncompressed_size: u64,
    /// Paths, relative to the install root, that the archive places.
    pub contents: Vec<String>,
}

/// One entry of the remote catalog.
#[derive(Debug, Clone, PartialEq, Eq)]
pub struct Package {
    pub name: String,
    pub version: String,
    /// Minimum platform API level; absent or empty means no constraint.
    pub min_api: Option<String>,
    pub dependencies: Vec<String>,
    pub conflicts: Vec<String>,
    pub architectures: Vec<Artifact>,
}

/// The catalog, in a fixed order: where several packages could answer a
/// query, the first one in this order wins.
pub struct Catalog {
    pub packages: Vec<Package>,
}

/// The strings of `v`, as character sequences.
pub open spec fn names_of(v: Seq<String>) -> Seq<Seq<char>> {
    v.map_values(|s: String| s@)
}

/// Whether `v` holds a string equal to `s`.
pub fn list_contains(v: &Vec<String>, s: &String) -> (r: bool)
    ensures
        r == names_of(v@).contains(s@),
{
    let mut i: usize = 0;
    while i < v.len()
        invariant
            i <= v@.len(),
            forall|j: int| 0 <= j < i ==> v@[j]@ != s@,
        decreases v@.len() - i,
    {
        if v[i] == *s {
            assert(names_of(v@)[i as int] == s@);
            return true;
        }
        i = i + 1;
    }
    proof {
        if names_of(v@).contains(s@) {
            let j = choose|j: int| 0 <= j < names_of(v@).len() && names_of(v@)[j] == s@;
            assert(v@[j]@ == s@);
        }
    }
    false
}

impl Package {
    /// Index of the first artifact built for `arch`.
    pub open spec fn is_first_arch(&self, arch: Seq<char>, i: int) -> bool {
        &&& 0 <= i < self.architectures@.len()
        &&& self.architectures@[i].arch@ == arch
        &&& forall|j: int| 0 <= j < i ==> self.architectures@[j].arch@ != arch
    }

    pub open spec fn has_arch(&self, arch: Seq<char>) -> bool {
        exists|i: int| 0 <= i < self.architectures@.len() && self.architectures@[i].arch@ == arch
    }

    /// The artifact that answers to `arch`: the first one built for it.
    pub open spec fn artifact(&self, arch: Seq<char>) -> Artifact
        recommends
            self.has_arch(arch),
    {
        self.architectures@[choose|i: int| self.is_first_arch(arch, i)]
    }

    pub open spec fn deps(&self) -> Seq<Seq<char>> {
        names_of(self.dependencies@)
    }

    /// Whether the package declares a minimum API level (one that is not
    /// blank).
    pub fn declares_min_api(&self) -> (r: bool)
        ensures
            r == (self.min_api is Some && !crate::compat::is_blank(self.min_api->0@)),
    {
        match &self.min_api {
            Some(m) => !crate::compat::blank(m.as_str()),
            None => false,
        }
    }

    /// The artifact of this package for `arch`, if it has one.
    pub fn artifact_for(&self, arch: &str) -> (r: Option<&Artifact>)
        ensures
            r.is_none() == !self.has_arch(arch@),
            r.is_some() ==> *r.unwrap() == self.artifact(arch@),
    {
        let key = arch.to_owned();
        let mut i: usize = 0;
        while i < self.architectures.len()
            invariant
                key@ == arch@,
                i <= self.architectures@.len(),
                forall|j: int| 0 <= j < i ==> self.architectures@[j].arch@ != arch@,
            decreases self.architectures@.len() - i,
        {
            if self.architectures[i].arch == key {
                assert(self.is_first_arch(arch@, i as int));
                let ghost c = choose|j: int| self.is_first_arch(arch@, j);
                assert(c == i);
                return Some(&self.architectures[i]);
            }
            i = i + 1;
        }
        None
    }
}

/// `a` sorts before `b`: lexicographic order by code point, a proper prefix
/// first.
pub open spec fn name_lt(a: Seq<char>, b: Seq<char>) -> bool
    decreases a.len(),
{
    if a.len() == 0 {
        b.len() > 0
    } else if b.len() == 0 {
        false
    } else if a[0] != b[0] {
        (a[0] as u32) < (b[0] as u32)
    } else {
        name_lt(a.drop_first(), b.drop_first())
    }
}

pub proof fn lemma_name_lt_irreflexive(a: Seq<char>)
    ensures
        !name_lt(a, a),
    decreases a.len(),
{
    if a.len() > 0 {
        lemma_name_lt_irreflexive(a.drop_first());
    }
}

pub proof fn lemma_name_lt_transitive(a: Seq<char>, b: Seq<char>, c: Seq<char>)
    requires
        name_lt(a, b),
        name_lt(b, c),
    ensures
        name_lt(a, c),
    decreases a.len(),
{
    if a.len() > 0 && b.len() > 0 && c.len() > 0 && a[0] == b[0] && b[0] == c[0] {
        lemma_name_lt_transitive(a.drop_first(), b.drop_first(), c.drop_first());
    }
}

/// With equal first `i` characters, the order is that of the rests.
proof fn lemma_name_lt_skip(a: Seq<char>, b: Seq<char>, i: int)
    requires
        0 <= i <= a.len(),
        i <= b.len(),
        a.subrange(0, i) == b.subrange(0, i),
    ensures
        name_lt(a, b) == name_lt(a.subrange(i, a.len() as int), b.subrange(i, b.len() as int)),
    decreases i,
{
    if i > 0 {
        assert(a[0] == a.subrange(0, i)[0]);
        assert(b[0] == b.subrange(0, i)[0]);
        assert(a.drop_first().subrange(0, i - 1) =~= a.subrange(0, i).drop_first());
        assert(b.drop_first().subrange(0, i - 1) =~= b.subrange(0, i).drop_first());
        lemma_name_lt_skip(a.drop_first(), b.drop_first(), i - 1);
        assert(a.drop_first().subrange(i - 1, a.len() - 1) =~= a.subrange(i, a.len() as int));
        assert(b.drop_first().subrange(i - 1, b.len() - 1) =~= b.subrange(i, b.len() as int));
    } else {
        assert(a.subrange(0, a.len() as int) =~= a);
        assert(b.subrange(0, b.len() as int) =~= b);
    }
}

/// Whether `a` sorts before `b`.
pub fn less_than(a: &str, b: &str) -> (r: bool)
    ensures
        r == name_lt(a@, b@),
{
    let n = a.unicode_len();
    let m = b.unicode_len();
    let mut i: usize = 0;
    while i < n && i < m
        invariant
            n == a@.len(),
            m == b@.len(),
            i <= n,
            i <= m,
            a@.subrange(0, i as int) == b@.subrange(0, i as int),
        decreases n - i,
    {
        let x = a.get_char(i);
        let y = b.get_char(i);
        if x != y {
            proof {
                lemma_name_lt_skip(a@, b@, i as int);
                let ra = a@.subrange(i as int, n as int);
                let rb = b@.subrange(i as int, m as int);
                assert(ra[0] == x && rb[0] == y);
            }
            return (x as u32) < (y as u32);
        }
        assert(a@.subrange(0, i + 1) =~= a@.subrange(0, i as int).push(x));
        assert(b@.subrange(0, i + 1) =~= b@.subrange(0, i as int).push(y));
        i = i + 1;
    }
    proof {
        lemma_name_lt_skip(a@, b@, i as int);
    }
    i == n && i < m
}

impl Catalog {
    /// Names run in strictly ascending order, so each name is a unique key
    /// and catalog order is name order.
    pub open spec fn wf(&self) -> bool {
        forall|i: int|
            0 <= i < self.packages@.len() - 1 ==> name_lt(
                #[trigger] self.packages@[i].name@,
                self.packages@[i + 1].name@,
            )
    }

    /// In a well-formed catalog an earlier name sorts before a later one.
    pub proof fn lemma_ascending(&self, i: int, j: int)
        requires
            self.wf(),
            0 <= i < j < self.packages@.len(),
        ensures
            name_lt(self.packages@[i].name@, self.packages@[j].name@),
        decreases j - i,
    {
        if j > i + 1 {
            self.lemma_ascending(i, j - 1);
            let k = j - 1;
            assert(name_lt(self.packages@[k].name@, self.packages@[k + 1].name@));
            lemma_name_lt_transitive(
                self.packages@[i].name@,
                self.packages@[j - 1].name@,
                self.packages@[j].name@,
            );
        }
    }

    /// In a well-formed catalog each package answers to its own name.
    pub proof fn lemma_unique(&self, i: int)
        requires
            self.wf(),
            0 <= i < self.packages@.len(),
        ensures
            self.is_first(self.packages@[i].name@, i),
            self.package(self.packages@[i].name@) == self.packages@[i],
    {
        assert forall|j: int| 0 <= j < i implies self.packages@[j].name@ != self.packages@[i].name@ by {
            self.lemma_ascending(j, i);
            lemma_name_lt_irreflexive(self.packages@[i].name@);
        }
        self.lemma_package_at(self.packages@[i].name@, i);
    }

    /// A catalog of `packages`, which must come in strictly ascending name
    /// order; `None` where they do not.
    pub fn new(packages: Vec<Package>) -> (r: Option<Catalog>)
        ensures
            r is Some <==> (Catalog { packages }).wf(),
            r is Some ==> r->0.packages == packages,
    {
        let mut i: usize = 1;
        while i < packages.len()
            invariant
                1 <= i,
                forall|k: int|
                    0 <= k < i - 1 && k < packages@.len() - 1 ==> name_lt(
                        #[trigger] packages@[k].name@,
                        packages@[k + 1].name@,
                    ),
            decreases packages@.len() - i,
        {
            if !less_than(packages[i - 1].name.as_str(), packages[i].name.as_str()) {
                proof {
                    let k = i - 1;
                    assert(!name_lt(packages@[k].name@, packages@[k + 1].name@));
                }
                return None;
            }
            i = i + 1;
        }
        Some(Catalog { packages })
    }

    /// Index of the first package named `name`.
    pub open spec fn is_first(&self, name: Seq<char>, i: int) -> bool {
        &&& 0 <= i < self.packages@.len()
        &&& self.packages@[i].name@ == name
        &&& forall|j: int| 0 <= j < i ==> self.packages@[j].name@ != name
    }

    pub open spec fn has(&self, name: Seq<char>) -> bool {
        exists|i: int| 0 <= i < self.packages@.len() && self.packages@[i].name@ == name
    }

    /// The package that answers to `name`: the first one of that name.
    pub open spec fn package(&self, name: Seq<char>) -> Package
        recommends
            self.has(name),
    {
        self.packages@[choose|i: int| self.is_first(name, i)]
    }

    pub proof fn lemma_first_unique(&self, name: Seq<char>, i: int, j: int)
        requires
            self.is_first(name, i),
            self.is_first(name, j),
        ensures
            i == j,
    {
    }

    /// The first package of a name is the one that answers to it.
    pub proof fn lemma_package_at(&self, name: Seq<char>, i: int)
        requires
            self.is_first(name, i),
        ensures
            self.has(name),
            self.package(name) == self.packages@[i],
    {
        self.lemma_first_unique(name, i, choose|j: int| self.is_first(name, j));
    }

    /// Position of the package named `name`.
    pub fn find(&self, name: &str) -> (r: Option<usize>)
        ensures
            r.is_none() == !self.has(name@),
            r.is_some() ==> self.is_first(name@, r.unwrap() as int),
            r.is_some() ==> self.package(name@) == self.packages@[r.unwrap() as int],
    {
        let key = name.to_owned();
        let mut i: usize = 0;
        while i < self.packages.len()
            invariant
                key@ == name@,
                i <= self.packages@.len(),
                forall|j: int| 0 <= j < i ==> self.packages@[j].name@ != name@,
            decreases self.packages@.len() - i,
        {
            if self.packages[i].name == key {
                assert(self.is_first(name@, i as int));
                proof {
                    self.lemma_first_unique(name@, i as int, choose|j: int| self.is_first(name@, j));
                }
                return Some(i);
            }
            i = i + 1;
        }
        None
    }

    /// Whether the catalog lists a package named `name`.
    pub fn contains(&self, name: &str) -> (r: bool)
        ensures
            r == self.has(name@),
    {
        self.find(name).is_some()
    }

    /// The package named `name`, if the catalog lists one.
    pub fn get(&self, name: &str) -> (r: Option<&Package>)
        ensures
            r.is_none() == !self.has(name@),
            r.is_some() ==> *r.unwrap() == self.package(name@),
    {
        match self.find(name) {
            Some(i) => Some(&self.packages[i]),
            None => None,
        }
    }
}

} // verus!
