use vstd::prelude::*;
use crate::catalog::{names_of, Catalog};
use crate::checksum::{hex_lower, sha256_of};
use crate::compat::{api_error, is_blank};
use crate::error::PieError;
use crate::ledger::{copy_strings, InstalledPackage, InstalledView, Ledger};
use crate::locator::{has_provider, is_first_provider};
use crate::resolver::{dependencies_first, is_schedule, lemma_schedule_covers, reaches};
use crate::transaction::{
    accept_download, entry_of, plan_install, prepare_install, resolve_install_target, saturate,
    select_artifact, staged_conflicts, total_download, total_installed, InstallPlan, Preparation,
};

verus! {

/// Where an install transaction stands: what it waits for next.
#[derive(Debug, PartialEq, Eq)]
pub enum Phase {
    /// Nothing done yet.
    Start,
    /// Waiting for the user to accept the package found by content.
    ConfirmTarget,
    /// Waiting for the device's API level.
    AwaitApiLevel,
    /// Waiting for the user to accept removing conflicting packages.
    ConfirmConflicts,
    /// Waiting for the files of removed conflicts to be deleted.
    RemovingConflicts,
    /// Waiting for the user to accept the plan.
    ConfirmPlan,
    /// Waiting for the archive of `queue[i]`.
    Fetching(usize),
    /// Waiting for the archive of `queue[i]` to be unpacked.
    Unpacking(usize),
    /// Waiting for the ledger to be written.
    Persisting,
    /// Finished.
    Done,
    /// Stopped on an error.
    Aborted,
}

/// How a finished install ended.
#[derive(Debug, PartialEq, Eq)]
pub enum Outcome {
    Installed,
    AlreadyInstalled,
}

/// What the caller is to do next for the transaction.
#[derive(Debug, PartialEq, Eq)]
pub enum Action {
    /// Ask whether to install `package`, which provides the query.
    ConfirmTarget { package: String },
    /// Report the device's API level.
    QueryApiLevel,
    /// Ask whether to remove these installed conflicting packages.
    ConfirmConflicts { conflicts: Vec<String> },
    /// Delete the files of these packages, already out of the ledger.
    RemoveFiles { removed: Vec<InstalledPackage> },
    /// Show the plan and ask whether to go on.
    ConfirmPlan { plan: InstallPlan },
    /// Download the archive of `package` from `url`.
    Fetch { package: String, url: String },
    /// Unpack the archive just fetched for `package` into the install root.
    Unpack { package: String },
    /// Write the ledger to durable storage.
    Persist,
    /// The transaction is over.
    Finish(Outcome),
    /// The transaction stopped on this error.
    Abort(PieError),
    /// The event does not fit the phase; nothing changed.
    OutOfOrder,
}

/// One install transaction: the decisions between the outside steps
/// (prompts, downloads, unpacking, writing the ledger), which the caller
/// performs and reports back.
pub struct InstallSession {
    /// The name asked for: a package name or a content path.
    pub query: String,
    pub arch: String,
    /// Run without asking the user anything.
    pub no_confirm: bool,
    /// The package being installed, once known.
    pub target: String,
    /// The ledger, as this transaction changes it.
    pub ledger: Ledger,
    /// Installed packages that conflict with the target.
    pub conflicts: Vec<String>,
    /// The packages to install, dependencies first and the target last.
    pub queue: Vec<String>,
    /// The entry to record once the current archive is unpacked.
    pub pending: Option<InstalledPackage>,
    pub phase: Phase,
}

/// `s` keeps the settings of `o`.
pub open spec fn same_setting(o: InstallSession, s: InstallSession) -> bool {
    &&& s.query@ == o.query@
    &&& s.arch@ == o.arch@
    &&& s.no_confirm == o.no_confirm
}

/// The install of `queue[i]` is under way, or all are installed and the
/// ledger is to be written.
pub open spec fn at_fetch(s: InstallSession, cat: &Catalog, a: Action, i: int) -> bool {
    if i >= s.queue@.len() {
        s.phase is Persisting && a is Persist
    } else {
        let n = s.queue@[i]@;
        if !cat.has(n) {
            s.phase is Aborted && a is Abort && a->Abort_0 is NotFound && a->Abort_0->NotFound_0@ == n
        } else if !cat.package(n).has_arch(s.arch@) {
            &&& s.phase is Aborted
            &&& a is Abort
            &&& a->Abort_0 is ArchitectureUnavailable
            &&& a->Abort_0->ArchitectureUnavailable_package@ == n
            &&& a->Abort_0->ArchitectureUnavailable_arch@ == s.arch@
        } else {
            &&& s.phase == Phase::Fetching(i as usize)
            &&& a is Fetch
            &&& a->Fetch_package@ == n
            &&& a->Fetch_url@ == cat.package(n).artifact(s.arch@).url@
        }
    }
}

/// Resolving the dependencies of `t` must fail: `t`, or a package that
/// installing it calls for, is missing from the catalog.
pub open spec fn resolution_fails(cat: &Catalog, led: Map<Seq<char>, InstalledView>, t: Seq<char>) -> bool {
    exists|n: Seq<char>| #![trigger cat.has(n)] !cat.has(n) && (n == t || reaches(cat, led, t, n))
}

/// Dependencies resolved: `queue` is a schedule for the target followed by
/// the target, and the plan is shown or, unattended, the installs begin.
pub open spec fn at_plan(s: InstallSession, cat: &Catalog, a: Action) -> bool {
    if resolution_fails(cat, s.ledger@, s.target@) {
        &&& s.phase is Aborted
        &&& a is Abort
        &&& a->Abort_0 is NotFound
        &&& !cat.has(a->Abort_0->NotFound_0@)
        &&& (a->Abort_0->NotFound_0@ == s.target@ || reaches(
            cat,
            s.ledger@,
            s.target@,
            a->Abort_0->NotFound_0@,
        ))
    } else {
        &&& s.queue@.len() > 0
        &&& s.queue@.last()@ == s.target@
        &&& is_schedule(cat, s.ledger@, s.target@, names_of(s.queue@.drop_last()))
        &&& dependencies_first(cat, s.ledger@, names_of(s.queue@.drop_last()))
        &&& if s.no_confirm {
            at_fetch(s, cat, a, 0)
        } else {
            &&& s.phase is ConfirmPlan
            &&& a is ConfirmPlan
            &&& names_of(a->ConfirmPlan_plan.dependencies@) == names_of(s.queue@.drop_last())
            &&& a->ConfirmPlan_plan.download_size == saturate(
                total_download(cat, seq![s.target@] + names_of(s.queue@.drop_last()), s.arch@),
            )
            &&& a->ConfirmPlan_plan.installed_size == saturate(
                total_installed(cat, seq![s.target@] + names_of(s.queue@.drop_last()), s.arch@),
            )
        }
    }
}

/// The staged conflicts are out of the ledger, and each entry handed out for
/// file removal is one that the ledger held.
pub open spec fn at_removal(led: Map<Seq<char>, InstalledView>, s: InstallSession, a: Action) -> bool {
    &&& s.phase is RemovingConflicts
    &&& a is RemoveFiles
    &&& s.ledger@ == led.remove_keys(names_of(s.conflicts@).to_set())
    &&& forall|k: int|
        0 <= k < a->RemoveFiles_removed@.len() ==> led.contains_key(
            #[trigger] a->RemoveFiles_removed@[k].name@,
        ) && led[a->RemoveFiles_removed@[k].name@] == a->RemoveFiles_removed@[k]@ && names_of(
            s.conflicts@,
        ).contains(a->RemoveFiles_removed@[k].name@)
    &&& forall|n: Seq<char>|
        names_of(s.conflicts@).contains(n) && led.contains_key(n) ==> exists|k: int|
            0 <= k < a->RemoveFiles_removed@.len() && #[trigger] a->RemoveFiles_removed@[k].name@ == n
}

/// The target's API requirement is met and its conflicts are staged: they
/// are confirmed by the user, removed unattended, or there are none.
pub open spec fn at_conflicts(
    led: Map<Seq<char>, InstalledView>,
    s: InstallSession,
    cat: &Catalog,
    a: Action,
) -> bool {
    let staged = staged_conflicts(cat.package(s.target@), led);
    &&& names_of(s.conflicts@) == staged
    &&& if staged.len() == 0 {
        s.ledger@ == led && at_plan(s, cat, a)
    } else if s.no_confirm {
        at_removal(led, s, a)
    } else {
        s.phase is ConfirmConflicts && a is ConfirmConflicts && a->ConfirmConflicts_conflicts@
            == s.conflicts@ && s.ledger@ == led
    }
}

/// The checks of the target on a device of API level `level`.
pub open spec fn at_compat(
    led: Map<Seq<char>, InstalledView>,
    s: InstallSession,
    cat: &Catalog,
    level: u32,
    a: Action,
) -> bool {
    let t = s.target@;
    if !cat.has(t) {
        s.phase is Aborted && a is Abort && a->Abort_0 is NotFound && s.ledger@ == led
    } else if led.contains_key(t) {
        s.phase is Done && a == Action::Finish(Outcome::AlreadyInstalled) && s.ledger@ == led
    } else {
        match api_error(cat.package(t), level) {
            Some(e) => s.phase is Aborted && a == Action::Abort(e) && s.ledger@ == led,
            None => at_conflicts(led, s, cat, a),
        }
    }
}

/// The target is known: installed already, waiting for the API level, or
/// checked as a device of any level passes it.
pub open spec fn at_target(
    led: Map<Seq<char>, InstalledView>,
    s: InstallSession,
    cat: &Catalog,
    a: Action,
) -> bool {
    let t = s.target@;
    if cat.has(t) && !led.contains_key(t) && cat.package(t).min_api is Some
        && !is_blank(cat.package(t).min_api->0@) {
        s.phase is AwaitApiLevel && a is QueryApiLevel && s.ledger@ == led
    } else {
        at_compat(led, s, cat, 0, a)
    }
}

/// Installing a package that the ledger holds already is a no-op: the
/// transaction ends at once, nothing is fetched and the ledger is as it was.
pub proof fn lemma_installed_is_no_op(
    led: Map<Seq<char>, InstalledView>,
    s: InstallSession,
    cat: &Catalog,
    a: Action,
)
    requires
        at_target(led, s, cat, a),
        cat.has(s.target@),
        led.contains_key(s.target@),
    ensures
        s.phase is Done,
        a == Action::Finish(Outcome::AlreadyInstalled),
        s.ledger@ == led,
{
}

impl InstallSession {
    /// A transaction that installs what `query` names.
    pub fn new(query: String, arch: String, no_confirm: bool, ledger: Ledger) -> (r: InstallSession)
        ensures
            r.query == query,
            r.arch == arch,
            r.no_confirm == no_confirm,
            r.ledger == ledger,
            r.phase is Start,
            r.pending is None,
    {
        InstallSession {
            query,
            arch,
            no_confirm,
            target: String::new(),
            ledger,
            conflicts: Vec::new(),
            queue: Vec::new(),
            pending: None,
            phase: Phase::Start,
        }
    }

    fn plan(&mut self, catalog: &Catalog) -> (a: Action)
        ensures
            same_setting(*old(self), *final(self)),
            final(self).target == old(self).target,
            final(self).ledger == old(self).ledger,
            final(self).conflicts == old(self).conflicts,
            final(self).pending == old(self).pending,
            at_plan(*final(self), catalog, a),
    {
        match plan_install(catalog, &self.ledger, self.target.as_str(), self.arch.as_str()) {
            Err(e) => {
                proof {
                    let n = e->NotFound_0@;
                    assert(!catalog.has(n) && (n == self.target@ || reaches(catalog, self.ledger@, self.target@, n)));
                }
                self.phase = Phase::Aborted;
                Action::Abort(e)
            },
            Ok(plan) => {
                proof {
                    assert forall|n: Seq<char>|
                        !catalog.has(n) implies !(n == self.target@ || reaches(
                        catalog,
                        self.ledger@,
                        self.target@,
                        n,
                    )) by {
                        if reaches(catalog, self.ledger@, self.target@, n) {
                            lemma_schedule_covers(
                                catalog,
                                self.ledger@,
                                self.target@,
                                names_of(plan.dependencies@),
                                n,
                            );
                        }
                    }
                }
                let mut queue = copy_strings(&plan.dependencies);
                queue.push(self.target.clone());
                assert(queue@.drop_last() =~= plan.dependencies@);
                self.queue = queue;
                if self.no_confirm {
                    self.next_fetch(catalog, 0)
                } else {
                    self.phase = Phase::ConfirmPlan;
                    Action::ConfirmPlan { plan }
                }
            },
        }
    }

    fn next_fetch(&mut self, catalog: &Catalog, i: usize) -> (a: Action)
        ensures
            same_setting(*old(self), *final(self)),
            final(self).target == old(self).target,
            final(self).ledger == old(self).ledger,
            final(self).queue == old(self).queue,
            final(self).conflicts == old(self).conflicts,
            final(self).pending == old(self).pending,
            at_fetch(*final(self), catalog, a, i as int),
    {
        if i >= self.queue.len() {
            self.phase = Phase::Persisting;
            return Action::Persist;
        }
        match select_artifact(catalog, self.queue[i].as_str(), self.arch.as_str()) {
            Err(e) => {
                self.phase = Phase::Aborted;
                Action::Abort(e)
            },
            Ok((p, artifact)) => {
                self.phase = Phase::Fetching(i);
                Action::Fetch { package: self.queue[i].clone(), url: artifact.url.clone() }
            },
        }
    }

    fn remove_conflicts(&mut self) -> (a: Action)
        ensures
            same_setting(*old(self), *final(self)),
            final(self).target == old(self).target,
            final(self).conflicts == old(self).conflicts,
            at_removal(old(self).ledger@, *final(self), a),
    {
        let ghost led = self.ledger@;
        let mut removed: Vec<InstalledPackage> = Vec::new();
        let mut i: usize = 0;
        while i < self.conflicts.len()
            invariant
                led == old(self).ledger@,
                same_setting(*old(self), *self),
                self.target == old(self).target,
                self.conflicts == old(self).conflicts,
                i <= self.conflicts@.len(),
                self.ledger@ == led.remove_keys(names_of(self.conflicts@.subrange(0, i as int)).to_set()),
                forall|k: int|
                    0 <= k < removed@.len() ==> led.contains_key(#[trigger] removed@[k].name@)
                        && led[removed@[k].name@] == removed@[k]@ && names_of(
                        self.conflicts@.subrange(0, i as int),
                    ).contains(removed@[k].name@),
                forall|n: Seq<char>|
                    names_of(self.conflicts@.subrange(0, i as int)).contains(n) && led.contains_key(n)
                        ==> exists|k: int| 0 <= k < removed@.len() && #[trigger] removed@[k].name@ == n,
            decreases self.conflicts@.len() - i,
        {
            let ghost before = names_of(self.conflicts@.subrange(0, i as int));
            let ghost after = names_of(self.conflicts@.subrange(0, i + 1));
            let ghost c = self.conflicts@[i as int]@;
            proof {
                assert(after =~= before.push(c));
                assert forall|x: Seq<char>| #[trigger] after.to_set().contains(x) == before.to_set().insert(
                    c,
                ).contains(x) by {
                    if x == c {
                        assert(after[after.len() - 1] == c);
                    } else if after.contains(x) {
                        let w = choose|w: int| 0 <= w < after.len() && after[w] == x;
                        assert(before[w] == x);
                    } else if before.contains(x) {
                        let w = choose|w: int| 0 <= w < before.len() && before[w] == x;
                        assert(after[w] == x);
                    }
                }
                assert(after.to_set() =~= before.to_set().insert(c));
                assert(led.remove_keys(after.to_set()) =~= led.remove_keys(before.to_set()).remove(c));
            }
            let ghost removed0 = removed@;
            match self.ledger.remove(self.conflicts[i].as_str()) {
                Some(p) => {
                    removed.push(p);
                    proof {
                        assert(removed@[removed@.len() - 1].name@ == c);
                        assert forall|k: int| 0 <= k < removed@.len() implies after.contains(
                            #[trigger] removed@[k].name@,
                        ) by {
                            if k < removed0.len() {
                                assert(removed@[k] == removed0[k]);
                                let w = choose|w: int| 0 <= w < before.len() && before[w] == removed0[k].name@;
                                assert(after[w] == before[w]);
                            } else {
                                assert(after[after.len() - 1] == c);
                            }
                        }
                        assert forall|n: Seq<char>|
                            after.contains(n) && led.contains_key(n) implies exists|k: int|
                                0 <= k < removed@.len() && #[trigger] removed@[k].name@ == n by {
                            if n != c {
                                assert(before.contains(n)) by {
                                    let w = choose|w: int| 0 <= w < after.len() && after[w] == n;
                                    assert(before[w] == n);
                                }
                                let k = choose|k: int| 0 <= k < removed0.len() && #[trigger] removed0[k].name@ == n;
                                assert(removed@[k] == removed0[k]);
                            } else {
                                assert(removed@[removed@.len() - 1].name@ == n);
                            }
                        }
                    }
                },
                None => {
                    proof {
                        assert forall|k: int| 0 <= k < removed@.len() implies after.contains(
                            #[trigger] removed@[k].name@,
                        ) by {
                            let w = choose|w: int| 0 <= w < before.len() && before[w] == removed@[k].name@;
                            assert(after[w] == before[w]);
                        }
                        assert forall|n: Seq<char>|
                            after.contains(n) && led.contains_key(n) implies exists|k: int|
                                0 <= k < removed@.len() && #[trigger] removed@[k].name@ == n by {
                            if n != c {
                                let w = choose|w: int| 0 <= w < after.len() && after[w] == n;
                                assert(before[w] == n);
                            } else {
                                assert(before.to_set().contains(c));
                            }
                        }
                    }
                },
            }
            i = i + 1;
        }
        assert(self.conflicts@.subrange(0, i as int) =~= self.conflicts@);
        assert(names_of(self.conflicts@.subrange(0, i as int)) == names_of(self.conflicts@));
        self.phase = Phase::RemovingConflicts;
        let a = Action::RemoveFiles { removed };
        assert(a->RemoveFiles_removed@ == removed@);
        assert forall|n: Seq<char>|
            names_of(self.conflicts@).contains(n) && led.contains_key(n) implies exists|k: int|
                0 <= k < a->RemoveFiles_removed@.len() && #[trigger] a->RemoveFiles_removed@[k].name@ == n by {
            let k = choose|k: int| 0 <= k < removed@.len() && #[trigger] removed@[k].name@ == n;
            assert(a->RemoveFiles_removed@[k].name@ == n);
        }
        a
    }

    fn check_compat(&mut self, catalog: &Catalog, level: u32) -> (a: Action)
        ensures
            same_setting(*old(self), *final(self)),
            final(self).target == old(self).target,
            at_compat(old(self).ledger@, *final(self), catalog, level, a),
    {
        match prepare_install(catalog, &self.ledger, self.target.as_str(), level) {
            Err(e) => {
                self.phase = Phase::Aborted;
                Action::Abort(e)
            },
            Ok(Preparation::AlreadyInstalled) => {
                self.phase = Phase::Done;
                Action::Finish(Outcome::AlreadyInstalled)
            },
            Ok(Preparation::Proceed { conflicts }) => {
                let none = conflicts.len() == 0;
                self.conflicts = conflicts;
                if none {
                    self.plan(catalog)
                } else if self.no_confirm {
                    self.remove_conflicts()
                } else {
                    self.phase = Phase::ConfirmConflicts;
                    Action::ConfirmConflicts { conflicts: copy_strings(&self.conflicts) }
                }
            },
        }
    }

    fn check_target(&mut self, catalog: &Catalog) -> (a: Action)
        ensures
            same_setting(*old(self), *final(self)),
            final(self).target == old(self).target,
            at_target(old(self).ledger@, *final(self), catalog, a),
    {
        let asks_level = match catalog.get(self.target.as_str()) {
            Some(p) => !self.ledger.contains(self.target.as_str()) && p.declares_min_api(),
            None => false,
        };
        if asks_level {
            self.phase = Phase::AwaitApiLevel;
            Action::QueryApiLevel
        } else {
            self.check_compat(catalog, 0)
        }
    }

    /// Begins the transaction: finds the package that `query` names.
    pub fn start(&mut self, catalog: &Catalog) -> (a: Action)
        ensures
            same_setting(*old(self), *final(self)),
            !(old(self).phase is Start) ==> *final(self) == *old(self) && a is OutOfOrder,
            old(self).phase is Start && catalog.has(old(self).query@) ==> final(self).target@ == old(
                self,
            ).query@ && at_target(old(self).ledger@, *final(self), catalog, a),
            old(self).phase is Start && !catalog.has(old(self).query@) && !has_provider(
                catalog,
                old(self).arch@,
                old(self).query@,
            ) ==> final(self).phase is Aborted && a is Abort && a->Abort_0 is NotFound
                && a->Abort_0->NotFound_0@ == old(self).query@ && final(self).ledger == old(self).ledger,
            old(self).phase is Start && !catalog.has(old(self).query@) && has_provider(
                catalog,
                old(self).arch@,
                old(self).query@,
            ) ==> (exists|i: int|
                is_first_provider(catalog, old(self).arch@, old(self).query@, i)
                    && #[trigger] catalog.packages@[i].name@ == final(self).target@) && if old(
                self,
            ).no_confirm {
                at_target(old(self).ledger@, *final(self), catalog, a)
            } else {
                final(self).phase is ConfirmTarget && a is ConfirmTarget && a->ConfirmTarget_package@
                    == final(self).target@ && final(self).ledger == old(self).ledger
            },
    {
        if !matches!(self.phase, Phase::Start) {
            return Action::OutOfOrder;
        }
        match resolve_install_target(catalog, self.query.as_str(), self.arch.as_str()) {
            Err(e) => {
                self.phase = Phase::Aborted;
                Action::Abort(e)
            },
            Ok((target, by_content)) => {
                self.target = target;
                if by_content && !self.no_confirm {
                    self.phase = Phase::ConfirmTarget;
                    Action::ConfirmTarget { package: self.target.clone() }
                } else {
                    self.check_target(catalog)
                }
            },
        }
    }

    /// The user's answer to the last question.
    pub fn answer(&mut self, catalog: &Catalog, yes: bool) -> (a: Action)
        ensures
            same_setting(*old(self), *final(self)),
            final(self).target == old(self).target,
            old(self).phase is ConfirmTarget && yes ==> at_target(old(self).ledger@, *final(self), catalog, a),
            old(self).phase is ConfirmTarget && !yes ==> final(self).phase is Aborted && a
                == Action::Abort(PieError::Cancelled) && final(self).ledger == old(self).ledger,
            old(self).phase is ConfirmConflicts && yes ==> final(self).conflicts == old(self).conflicts
                && at_removal(old(self).ledger@, *final(self), a),
            old(self).phase is ConfirmConflicts && !yes ==> final(self).phase is Aborted && a
                == Action::Abort(PieError::Cancelled) && final(self).ledger == old(self).ledger,
            old(self).phase is ConfirmPlan && yes ==> final(self).ledger == old(self).ledger
                && final(self).queue == old(self).queue && at_fetch(*final(self), catalog, a, 0),
            old(self).phase is ConfirmPlan && !yes ==> final(self).phase is Aborted && a
                == Action::Abort(PieError::Cancelled) && final(self).ledger == old(self).ledger,
            !(old(self).phase is ConfirmTarget || old(self).phase is ConfirmConflicts
                || old(self).phase is ConfirmPlan) ==> *final(self) == *old(self) && a is OutOfOrder,
    {
        match self.phase {
            Phase::ConfirmTarget => {
                if yes {
                    self.check_target(catalog)
                } else {
                    self.phase = Phase::Aborted;
                    Action::Abort(PieError::Cancelled)
                }
            },
            Phase::ConfirmConflicts => {
                if yes {
                    self.remove_conflicts()
                } else {
                    self.phase = Phase::Aborted;
                    Action::Abort(PieError::Cancelled)
                }
            },
            Phase::ConfirmPlan => {
                if yes {
                    self.next_fetch(catalog, 0)
                } else {
                    self.phase = Phase::Aborted;
                    Action::Abort(PieError::Cancelled)
                }
            },
            _ => Action::OutOfOrder,
        }
    }

    /// The device's API level, as asked for.
    pub fn api_level(&mut self, catalog: &Catalog, level: u32) -> (a: Action)
        ensures
            same_setting(*old(self), *final(self)),
            final(self).target == old(self).target,
            old(self).phase is AwaitApiLevel ==> at_compat(old(self).ledger@, *final(self), catalog, level, a),
            !(old(self).phase is AwaitApiLevel) ==> *final(self) == *old(self) && a is OutOfOrder,
    {
        match self.phase {
            Phase::AwaitApiLevel => self.check_compat(catalog, level),
            _ => Action::OutOfOrder,
        }
    }

    /// The files of the removed conflicts are gone.
    pub fn files_removed(&mut self, catalog: &Catalog) -> (a: Action)
        ensures
            same_setting(*old(self), *final(self)),
            final(self).target == old(self).target,
            old(self).phase is RemovingConflicts ==> final(self).ledger == old(self).ledger && at_plan(
                *final(self),
                catalog,
                a,
            ),
            !(old(self).phase is RemovingConflicts) ==> *final(self) == *old(self) && a is OutOfOrder,
    {
        match self.phase {
            Phase::RemovingConflicts => self.plan(catalog),
            _ => Action::OutOfOrder,
        }
    }

    /// The archive of the package being fetched has arrived: it is checked
    /// against its checksum before anything is unpacked.
    pub fn fetched(&mut self, catalog: &Catalog, content: &[u8]) -> (a: Action)
        ensures
            same_setting(*old(self), *final(self)),
            final(self).target == old(self).target,
            final(self).ledger == old(self).ledger,
            final(self).queue == old(self).queue,
            !(old(self).phase is Fetching) ==> *final(self) == *old(self) && a is OutOfOrder,
            old(self).phase is Fetching ==> {
                let i = old(self).phase->Fetching_0 as int;
                let n = old(self).queue@[i]@;
                if i < old(self).queue@.len() && catalog.has(n) && catalog.package(n).has_arch(
                    old(self).arch@,
                ) {
                    let p = catalog.package(n);
                    let art = p.artifact(old(self).arch@);
                    if hex_lower(sha256_of(content@)) == art.sha256@ {
                        &&& final(self).phase == Phase::Unpacking(i as usize)
                        &&& a is Unpack && a->Unpack_package@ == n
                        &&& final(self).pending is Some
                        &&& final(self).pending->0@ == entry_of(p, art)
                    } else {
                        &&& final(self).phase is Aborted
                        &&& a is Abort && a->Abort_0 is ChecksumMismatch
                        &&& a->Abort_0->ChecksumMismatch_0@ == p.name@
                        &&& final(self).pending == old(self).pending
                    }
                } else {
                    final(self).phase is Aborted && a is Abort
                }
            },
    {
        let i = match self.phase {
            Phase::Fetching(i) => i,
            _ => {
                return Action::OutOfOrder;
            },
        };
        if i >= self.queue.len() {
            self.phase = Phase::Aborted;
            return Action::Abort(PieError::NotFound(self.target.clone()));
        }
        match select_artifact(catalog, self.queue[i].as_str(), self.arch.as_str()) {
            Err(e) => {
                self.phase = Phase::Aborted;
                Action::Abort(e)
            },
            Ok((p, artifact)) => match accept_download(p, artifact, content) {
                Err(e) => {
                    self.phase = Phase::Aborted;
                    Action::Abort(e)
                },
                Ok(entry) => {
                    self.pending = Some(entry);
                    self.phase = Phase::Unpacking(i);
                    Action::Unpack { package: self.queue[i].clone() }
                },
            },
        }
    }

    /// The archive of the package being installed is unpacked: its entry
    /// goes into the ledger and the next package follows.
    pub fn unpacked(&mut self, catalog: &Catalog) -> (a: Action)
        ensures
            same_setting(*old(self), *final(self)),
            final(self).target == old(self).target,
            final(self).queue == old(self).queue,
            old(self).phase is Unpacking && old(self).pending is Some ==> {
                let e = old(self).pending->0;
                &&& final(self).ledger@ == old(self).ledger@.insert(e.name@, e@)
                &&& final(self).pending is None
                &&& at_fetch(*final(self), catalog, a, old(self).phase->Unpacking_0 + 1)
            },
            !(old(self).phase is Unpacking && old(self).pending is Some) ==> *final(self) == *old(self)
                && a is OutOfOrder,
    {
        let i = match self.phase {
            Phase::Unpacking(i) => i,
            _ => {
                return Action::OutOfOrder;
            },
        };
        let entry = match self.pending.take() {
            Some(e) => e,
            None => {
                return Action::OutOfOrder;
            },
        };
        self.ledger.insert(entry);
        if i >= self.queue.len() {
            self.phase = Phase::Persisting;
            return Action::Persist;
        }
        self.next_fetch(catalog, i + 1)
    }

    /// The ledger is written: the transaction is complete.
    pub fn persisted(&mut self) -> (a: Action)
        ensures
            old(self).phase is Persisting ==> final(self).phase is Done && a == Action::Finish(
                Outcome::Installed,
            ) && final(self).ledger == old(self).ledger,
            !(old(self).phase is Persisting) ==> *final(self) == *old(self) && a is OutOfOrder,
    {
        match self.phase {
            Phase::Persisting => {
                self.phase = Phase::Done;
                Action::Finish(Outcome::Installed)
            },
            _ => Action::OutOfOrder,
        }
    }
}

} // verus!
