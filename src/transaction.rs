use vstd::prelude::*;
use crate::catalog::{names_of, Artifact, Catalog, Package};
use crate::checksum::{digest_matches, hex_lower, sha256_digest, sha256_of};
use crate::compat::{api_error, check_api_compatibility};
use crate::error::PieError;
use crate::ledger::{copy_strings, InstalledPackage, InstalledView, Ledger};
use crate::locator::{
    find_installed_by_content, find_package_by_content, has_installed_provider, has_provider,
    is_first_installed_provider, is_first_provider,
};
use crate::resolver::{dependencies_first, is_schedule, reaches, resolve_dependencies};

verus! {

/// The declared conflicts of a package that are installed now, in the order
/// the package declares them.
pub open spec fn staged_conflicts(p: Package, led: Map<Seq<char>, InstalledView>) -> Seq<Seq<char>> {
    names_of(p.conflicts@).filter(|c: Seq<char>| led.contains_key(c))
}

/// The installed packages that `package` declares it conflicts with: they
/// must be removed before it is installed.
pub fn stage_conflicts(package: &Package, installed: &Ledger) -> (r: Vec<String>)
    ensures
        names_of(r@) == staged_conflicts(*package, installed@),
{
    let ghost all = names_of(package.conflicts@);
    let ghost pred = |c: Seq<char>| installed@.contains_key(c);
    let mut r: Vec<String> = Vec::new();
    let mut i: usize = 0;
    proof {
        reveal_with_fuel(Seq::filter, 1);
        assert(all.subrange(0, 0) =~= Seq::<Seq<char>>::empty());
        assert(names_of(r@) =~= all.subrange(0, 0).filter(pred));
    }
    while i < package.conflicts.len()
        invariant
            all == names_of(package.conflicts@),
            pred == (|c: Seq<char>| installed@.contains_key(c)),
            i <= package.conflicts@.len(),
            names_of(r@) == all.subrange(0, i as int).filter(pred),
        decreases package.conflicts@.len() - i,
    {
        let ghost before = r@;
        let c = &package.conflicts[i];
        let ghost next = all.subrange(0, i + 1);
        proof {
            reveal_with_fuel(Seq::filter, 1);
            assert(next.drop_last() =~= all.subrange(0, i as int));
            assert(next.last() == c@);
        }
        if installed.contains(c.as_str()) {
            r.push(c.clone());
            assert(names_of(r@) =~= names_of(before).push(c@));
        }
        i = i + 1;
    }
    assert(all.subrange(0, i as int) =~= all);
    r
}

/// What installing a package asks for once its name is known.
#[derive(Debug, PartialEq, Eq)]
pub enum Preparation {
    /// The package is in the ledger already: nothing is to be done.
    AlreadyInstalled,
    /// Go on, after removing these installed conflicting packages.
    Proceed { conflicts: Vec<String> },
}

/// The first decisions of an install of the catalog package `target`: is it
/// installed already, does the device run a recent enough platform, and
/// which installed packages conflict with it.
pub fn prepare_install(catalog: &Catalog, installed: &Ledger, target: &str, device_api: u32) -> (r:
    Result<Preparation, PieError>)
    ensures
        !catalog.has(target@) ==> r is Err && r->Err_0 is NotFound && r->Err_0->NotFound_0@
            == target@,
        catalog.has(target@) && installed@.contains_key(target@) ==> r is Ok && r->Ok_0 is AlreadyInstalled,
        catalog.has(target@) && !installed@.contains_key(target@) ==> match api_error(
            catalog.package(target@),
            device_api,
        ) {
            Some(e) => r == Err::<Preparation, PieError>(e),
            None => r is Ok && r->Ok_0 is Proceed && names_of(r->Ok_0->conflicts@) == staged_conflicts(
                catalog.package(target@),
                installed@,
            ),
        },
{
    let package = match catalog.get(target) {
        Some(p) => p,
        None => {
            return Err(PieError::NotFound(target.to_owned()));
        },
    };
    if installed.contains(target) {
        return Ok(Preparation::AlreadyInstalled);
    }
    match check_api_compatibility(package, device_api) {
        Err(e) => Err(e),
        Ok(()) => Ok(Preparation::Proceed { conflicts: stage_conflicts(package, installed) }),
    }
}

/// Download size of the package named `n` for `arch`; zero where the
/// catalog lacks the package or the package lacks an artifact for `arch`.
pub open spec fn download_size_of(cat: &Catalog, n: Seq<char>, arch: Seq<char>) -> int {
    if cat.has(n) && cat.package(n).has_arch(arch) {
        cat.package(n).artifact(arch).size as int
    } else {
        0
    }
}

/// Installed size of the package named `n` for `arch`, zero as above.
pub open spec fn installed_size_of(cat: &Catalog, n: Seq<char>, arch: Seq<char>) -> int {
    if cat.has(n) && cat.package(n).has_arch(arch) {
        cat.package(n).artifact(arch).uncompressed_size as int
    } else {
        0
    }
}

pub open spec fn total_download(cat: &Catalog, names: Seq<Seq<char>>, arch: Seq<char>) -> int
    decreases names.len(),
{
    if names.len() == 0 {
        0
    } else {
        total_download(cat, names.drop_last(), arch) + download_size_of(cat, names.last(), arch)
    }
}

pub open spec fn total_installed(cat: &Catalog, names: Seq<Seq<char>>, arch: Seq<char>) -> int
    decreases names.len(),
{
    if names.len() == 0 {
        0
    } else {
        total_installed(cat, names.drop_last(), arch) + installed_size_of(cat, names.last(), arch)
    }
}

/// `x`, or the largest `u64` where `x` is larger.
pub open spec fn saturate(x: int) -> u64 {
    if x > u64::MAX {
        u64::MAX
    } else {
        x as u64
    }
}

proof fn lemma_totals_nonneg(cat: &Catalog, names: Seq<Seq<char>>, arch: Seq<char>)
    ensures
        total_download(cat, names, arch) >= 0,
        total_installed(cat, names, arch) >= 0,
    decreases names.len(),
{
    if names.len() > 0 {
        lemma_totals_nonneg(cat, names.drop_last(), arch);
    }
}

fn sizes_of(catalog: &Catalog, name: &str, arch: &str) -> (r: (u64, u64))
    ensures
        r.0 == download_size_of(catalog, name@, arch@),
        r.1 == installed_size_of(catalog, name@, arch@),
{
    match catalog.get(name) {
        Some(p) => match p.artifact_for(arch) {
            Some(a) => (a.size, a.uncompressed_size),
            None => (0, 0),
        },
        None => (0, 0),
    }
}

/// The rest of an install, once conflicts are out of the ledger: the
/// dependencies to install first, and the sizes to fetch and to place.
#[derive(Debug, PartialEq, Eq)]
pub struct InstallPlan {
    pub dependencies: Vec<String>,
    /// Total download size of the target and its dependencies.
    pub download_size: u64,
    /// Total installed size of the target and its dependencies.
    pub installed_size: u64,
}

/// Resolves the dependencies of `target` against the ledger and adds up the
/// sizes, for `arch`, of all that will be installed.
pub fn plan_install(catalog: &Catalog, installed: &Ledger, target: &str, arch: &str) -> (r: Result<
    InstallPlan,
    PieError,
>)
    ensures
        r is Ok ==> catalog.has(target@) && is_schedule(
            catalog,
            installed@,
            target@,
            names_of(r->Ok_0.dependencies@),
        ) && dependencies_first(catalog, installed@, names_of(r->Ok_0.dependencies@))
            && r->Ok_0.download_size == saturate(
            total_download(catalog, seq![target@] + names_of(r->Ok_0.dependencies@), arch@),
        ) && r->Ok_0.installed_size == saturate(
            total_installed(catalog, seq![target@] + names_of(r->Ok_0.dependencies@), arch@),
        ),
        r is Err ==> r->Err_0 is NotFound && !catalog.has(r->Err_0->NotFound_0@) && (
        r->Err_0->NotFound_0@ == target@ || reaches(
            catalog,
            installed@,
            target@,
            r->Err_0->NotFound_0@,
        )),
{
    let dependencies = match resolve_dependencies(catalog, target, installed) {
        Ok(d) => d,
        Err(e) => {
            return Err(e);
        },
    };
    let ghost deps = names_of(dependencies@);
    let (d0, i0) = sizes_of(catalog, target, arch);
    let mut download: u64 = d0;
    let mut size: u64 = i0;
    proof {
        let first = seq![target@] + deps.subrange(0, 0);
        assert(first.drop_last() =~= Seq::<Seq<char>>::empty());
        assert(first.last() == target@);
        assert(total_download(catalog, Seq::empty(), arch@) == 0);
        assert(total_installed(catalog, Seq::empty(), arch@) == 0);
        assert(total_download(catalog, first, arch@) == d0);
        assert(total_installed(catalog, first, arch@) == i0);
    }
    let mut i: usize = 0;
    while i < dependencies.len()
        invariant
            deps == names_of(dependencies@),
            i <= dependencies@.len(),
            download == saturate(total_download(catalog, seq![target@] + deps.subrange(0, i as int), arch@)),
            size == saturate(total_installed(catalog, seq![target@] + deps.subrange(0, i as int), arch@)),
        decreases dependencies@.len() - i,
    {
        let (d, u) = sizes_of(catalog, dependencies[i].as_str(), arch);
        proof {
            let prev = seq![target@] + deps.subrange(0, i as int);
            let next = seq![target@] + deps.subrange(0, i + 1);
            assert(next.drop_last() =~= prev);
            assert(next.last() == dependencies@[i as int]@);
            lemma_totals_nonneg(catalog, prev, arch@);
            assert(total_download(catalog, next, arch@) == total_download(catalog, prev, arch@) + d);
            assert(total_installed(catalog, next, arch@) == total_installed(catalog, prev, arch@) + u);
        }
        download = download.saturating_add(d);
        size = size.saturating_add(u);
        i = i + 1;
    }
    assert(deps.subrange(0, i as int) =~= deps);
    Ok(InstallPlan { dependencies, download_size: download, installed_size: size })
}

/// The catalog package named `name` and its artifact for `arch`.
pub fn select_artifact<'a>(catalog: &'a Catalog, name: &str, arch: &str) -> (r: Result<
    (&'a Package, &'a Artifact),
    PieError,
>)
    ensures
        r is Ok <==> catalog.has(name@) && catalog.package(name@).has_arch(arch@),
        r is Ok ==> *r->Ok_0.0 == catalog.package(name@) && *r->Ok_0.1 == catalog.package(
            name@,
        ).artifact(arch@),
        !catalog.has(name@) ==> r is Err && r->Err_0 is NotFound && r->Err_0->NotFound_0@ == name@,
        catalog.has(name@) && !catalog.package(name@).has_arch(arch@) ==> r is Err
            && r->Err_0 is ArchitectureUnavailable && r->Err_0->ArchitectureUnavailable_package@
            == name@ && r->Err_0->ArchitectureUnavailable_arch@ == arch@,
{
    match catalog.get(name) {
        None => Err(PieError::NotFound(name.to_owned())),
        Some(p) => match p.artifact_for(arch) {
            None => Err(
                PieError::ArchitectureUnavailable { package: name.to_owned(), arch: arch.to_owned() },
            ),
            Some(a) => Ok((p, a)),
        },
    }
}

/// The ledger entry for `package` as `artifact` installs it.
pub open spec fn entry_of(package: Package, artifact: Artifact) -> InstalledView {
    InstalledView {
        name: package.name@,
        version: package.version@,
        contents: names_of(artifact.contents@),
    }
}

/// Accepts a download whose SHA-256 digest is `digest`: when the digest
/// matches the artifact's checksum, hands back the ledger entry to record
/// once the archive is unpacked; otherwise refuses it, and nothing is to be
/// unpacked or recorded.
pub fn accept_digest(package: &Package, artifact: &Artifact, digest: &[u8]) -> (r: Result<
    InstalledPackage,
    PieError,
>)
    ensures
        r is Ok <==> hex_lower(digest@) == artifact.sha256@,
        r is Ok ==> r->Ok_0@ == entry_of(*package, *artifact),
        r is Err ==> r->Err_0 is ChecksumMismatch && r->Err_0->ChecksumMismatch_0@ == package.name@,
{
    if digest_matches(digest, artifact.sha256.as_str()) {
        Ok(
            InstalledPackage {
                name: package.name.clone(),
                version: package.version.clone(),
                contents: copy_strings(&artifact.contents),
            },
        )
    } else {
        Err(PieError::ChecksumMismatch(package.name.clone()))
    }
}

/// Checks downloaded archive bytes against the artifact's checksum, as
/// `accept_digest` does with their SHA-256 digest.
pub fn accept_download(package: &Package, artifact: &Artifact, content: &[u8]) -> (r: Result<
    InstalledPackage,
    PieError,
>)
    ensures
        r is Ok <==> hex_lower(sha256_of(content@)) == artifact.sha256@,
        r is Ok ==> r->Ok_0@ == entry_of(*package, *artifact),
        r is Err ==> r->Err_0 is ChecksumMismatch && r->Err_0->ChecksumMismatch_0@ == package.name@,
{
    let digest = sha256_digest(content);
    accept_digest(package, artifact, digest.as_slice())
}

/// The package an install of `name` is about: the catalog package of that
/// name, or else the first one that provides `name` as content (then the
/// flag is set, and the user may be asked to confirm).
pub fn resolve_install_target(catalog: &Catalog, name: &str, arch: &str) -> (r: Result<
    (String, bool),
    PieError,
>)
    ensures
        catalog.has(name@) ==> r is Ok && r->Ok_0.0@ == name@ && !r->Ok_0.1,
        !catalog.has(name@) && !has_provider(catalog, arch@, name@) ==> r is Err && r->Err_0 is NotFound
            && r->Err_0->NotFound_0@ == name@,
        !catalog.has(name@) && has_provider(catalog, arch@, name@) ==> r is Ok && r->Ok_0.1
            && exists|i: int|
            is_first_provider(catalog, arch@, name@, i) && #[trigger] catalog.packages@[i].name@
                == r->Ok_0.0@,
{
    if catalog.contains(name) {
        return Ok((name.to_owned(), false));
    }
    match find_package_by_content(catalog, name, arch) {
        Some(p) => Ok((p, true)),
        None => Err(PieError::NotFound(name.to_owned())),
    }
}

/// The package an uninstall of `name` is about: the installed package of
/// that name, or else the first installed package that provides `name` as
/// content (then the flag is set). Where there is none, the name is not
/// installed.
pub fn resolve_uninstall_target(catalog: &Catalog, installed: &Ledger, name: &str, arch: &str) -> (r:
    Result<(String, bool), PieError>)
    ensures
        installed@.contains_key(name@) ==> r is Ok && r->Ok_0.0@ == name@ && !r->Ok_0.1,
        !installed@.contains_key(name@) && !has_installed_provider(catalog, installed@, arch@, name@)
            ==> r is Err && r->Err_0 is NotInstalled && r->Err_0->NotInstalled_0@ == name@,
        !installed@.contains_key(name@) && has_installed_provider(catalog, installed@, arch@, name@)
            ==> r is Ok && r->Ok_0.1 && exists|i: int|
            is_first_installed_provider(catalog, installed@, arch@, name@, i)
                && #[trigger] catalog.packages@[i].name@ == r->Ok_0.0@,
{
    if installed.contains(name) {
        return Ok((name.to_owned(), false));
    }
    match find_installed_by_content(catalog, installed, name, arch) {
        Some(p) => Ok((p, true)),
        None => Err(PieError::NotInstalled(name.to_owned())),
    }
}

} // verus!
