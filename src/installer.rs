//! Install transactions: what a package install changed, how to undo it,
//! and the decisions taken along the way.

use vstd::prelude::*;
use crate::package::{views, PackageManifest};
use crate::solver::{contains_name, has_name};
use crate::error::PkgError;

verus! {

/// The record of the filesystem changes of one package install.
#[derive(Debug)]
pub struct InstallationTransaction {
    pub installed_files: Vec<String>,
    pub backup_files: Vec<(String, String)>,
}

/// One action that undoes part of an install.
#[derive(Debug)]
pub enum RollbackStep {
    /// Remove a file or directory that the install created or replaced.
    RemoveInstalled(String),
    /// Put the saved copy back in place of the original.
    RestoreBackup { original: String, backup: String },
}

/// The four maintainer hooks.
#[derive(Debug, Clone, Copy, PartialEq, Eq, Structural)]
pub enum HookType {
    PreInstall,
    PostInstall,
    PreRemove,
    PostRemove,
}

/// What stands at a destination path before a file is placed there.
#[derive(Debug, Clone, Copy, PartialEq, Eq, Structural)]
pub enum DestKind {
    Missing,
    RegularFile,
    Directory,
    Symlink,
}

/// How to place one file.
#[derive(Debug, Clone, Copy, PartialEq, Eq, Structural)]
pub enum CopyAction {
    /// Write the file; nothing was there.
    Place,
    /// Save the existing file as a backup, then replace it.
    BackupAndReplace,
    /// Replace what is there without a backup.
    Replace,
    /// A directory stands where the file goes: the install fails.
    Conflict,
}

/// The outcome of the integrity gate before an install.
#[derive(Debug, Clone, Copy, PartialEq, Eq, Structural)]
pub enum IntegrityDecision {
    Proceed,
    /// The archive extracts cleanly but its digest differs from the index.
    ProceedWithWarning,
    /// Both the digest and the extraction failed: delete the archive.
    RejectCorrupted,
    /// The archive does not extract.
    ExtractionFailed,
}

impl InstallationTransaction {
    pub fn new() -> (r: Self)
        ensures
            r.installed_files@.len() == 0,
            r.backup_files@.len() == 0,
    {
        InstallationTransaction { installed_files: Vec::new(), backup_files: Vec::new() }
    }

    /// Records a file that the install placed.
    pub fn add_installed_file(&mut self, path: String)
        ensures
            final(self).installed_files@ == old(self).installed_files@.push(path),
            final(self).backup_files@ == old(self).backup_files@,
    {
        self.installed_files.push(path);
    }

    /// Records the backup made of a file before it was overwritten.
    pub fn add_backup(&mut self, original: String, backup: String)
        ensures
            final(self).backup_files@ == old(self).backup_files@.push((original, backup)),
            final(self).installed_files@ == old(self).installed_files@,
    {
        self.backup_files.push((original, backup));
    }

    /// The steps that undo the install: every placed file is removed, in
    /// order, then every backup is restored, in order.
    pub fn rollback_plan(&self) -> (r: Vec<RollbackStep>)
        ensures
            r@.len() == self.installed_files@.len() + self.backup_files@.len(),
            forall|i: int|
                0 <= i < self.installed_files@.len() ==> #[trigger] r@[i]
                    == RollbackStep::RemoveInstalled(self.installed_files@[i]),
            forall|i: int|
                0 <= i < self.backup_files@.len() ==> #[trigger] r@[self.installed_files@.len() + i]
                    == (RollbackStep::RestoreBackup {
                    original: self.backup_files@[i].0,
                    backup: self.backup_files@[i].1,
                }),
    {
        let mut r: Vec<RollbackStep> = Vec::new();
        let mut i: usize = 0;
        while i < self.installed_files.len()
            invariant
                i <= self.installed_files@.len(),
                r@.len() == i,
                forall|j: int|
                    0 <= j < i ==> #[trigger] r@[j] == RollbackStep::RemoveInstalled(
                        self.installed_files@[j],
                    ),
            decreases self.installed_files.len() - i,
        {
            r.push(RollbackStep::RemoveInstalled(self.installed_files[i].clone()));
            i = i + 1;
        }
        let n = self.installed_files.len();
        let mut k: usize = 0;
        while k < self.backup_files.len()
            invariant
                k <= self.backup_files@.len(),
                n == self.installed_files@.len(),
                r@.len() == n + k,
                forall|j: int|
                    0 <= j < n ==> #[trigger] r@[j] == RollbackStep::RemoveInstalled(
                        self.installed_files@[j],
                    ),
                forall|j: int|
                    0 <= j < k ==> #[trigger] r@[n + j] == (RollbackStep::RestoreBackup {
                        original: self.backup_files@[j].0,
                        backup: self.backup_files@[j].1,
                    }),
            decreases self.backup_files.len() - k,
        {
            let (o, b) = &self.backup_files[k];
            r.push(RollbackStep::RestoreBackup { original: o.clone(), backup: b.clone() });
            assert(r@[n + k] == (RollbackStep::RestoreBackup {
                original: self.backup_files@[k as int].0,
                backup: self.backup_files@[k as int].1,
            }));
            k = k + 1;
        }
        r
    }
}

pub open spec fn script_name_spec(h: HookType) -> Seq<char> {
    match h {
        HookType::PreInstall => seq!['p', 'r', 'e', 'i', 'n', 's', 't'],
        HookType::PostInstall => seq!['p', 'o', 's', 't', 'i', 'n', 's', 't'],
        HookType::PreRemove => seq!['p', 'r', 'e', 'r', 'm'],
        HookType::PostRemove => seq!['p', 'o', 's', 't', 'r', 'm'],
    }
}

/// The file name of a hook's script in the control area.
pub fn hook_script_name(h: HookType) -> (r: String)
    ensures
        r@ == script_name_spec(h),
{
    proof {
        reveal_strlit("preinst");
        reveal_strlit("postinst");
        reveal_strlit("prerm");
        reveal_strlit("postrm");
        assert("preinst"@ =~= seq!['p', 'r', 'e', 'i', 'n', 's', 't']);
        assert("postinst"@ =~= seq!['p', 'o', 's', 't', 'i', 'n', 's', 't']);
        assert("prerm"@ =~= seq!['p', 'r', 'e', 'r', 'm']);
        assert("postrm"@ =~= seq!['p', 'o', 's', 't', 'r', 'm']);
    }
    match h {
        HookType::PreInstall => String::from_str("preinst"),
        HookType::PostInstall => String::from_str("postinst"),
        HookType::PreRemove => String::from_str("prerm"),
        HookType::PostRemove => String::from_str("postrm"),
    }
}

/// The positional arguments of a hook: `install` for a fresh install or
/// `upgrade <old>` for a replacement; `configure <old>` after install;
/// `remove` around a removal.
pub open spec fn hook_args_spec(h: HookType, old: Seq<char>) -> Seq<Seq<char>> {
    match h {
        HookType::PreInstall => if old.len() == 0 {
            seq![seq!['i', 'n', 's', 't', 'a', 'l', 'l']]
        } else {
            seq![seq!['u', 'p', 'g', 'r', 'a', 'd', 'e'], old]
        },
        HookType::PostInstall => seq![seq!['c', 'o', 'n', 'f', 'i', 'g', 'u', 'r', 'e'], old],
        HookType::PreRemove => seq![seq!['r', 'e', 'm', 'o', 'v', 'e']],
        HookType::PostRemove => seq![seq!['r', 'e', 'm', 'o', 'v', 'e']],
    }
}

/// The positional arguments of a hook, given the version being replaced
/// (empty for none).
pub fn hook_arguments(h: HookType, old_version: &str) -> (r: Vec<String>)
    ensures
        crate::package::views(r@) == hook_args_spec(h, old_version@),
{
    proof {
        reveal_strlit("install");
        reveal_strlit("upgrade");
        reveal_strlit("configure");
        reveal_strlit("remove");
        assert("install"@ =~= seq!['i', 'n', 's', 't', 'a', 'l', 'l']);
        assert("upgrade"@ =~= seq!['u', 'p', 'g', 'r', 'a', 'd', 'e']);
        assert("configure"@ =~= seq!['c', 'o', 'n', 'f', 'i', 'g', 'u', 'r', 'e']);
        assert("remove"@ =~= seq!['r', 'e', 'm', 'o', 'v', 'e']);
    }
    let mut r: Vec<String> = Vec::new();
    match h {
        HookType::PreInstall => {
            if old_version.unicode_len() == 0 {
                r.push(String::from_str("install"));
            } else {
                r.push(String::from_str("upgrade"));
                r.push(String::from_str(old_version));
            }
        },
        HookType::PostInstall => {
            r.push(String::from_str("configure"));
            r.push(String::from_str(old_version));
        },
        _ => {
            r.push(String::from_str("remove"));
        },
    }
    assert(crate::package::views(r@) =~= hook_args_spec(h, old_version@));
    r
}

/// How to place a file over what stands at its destination.
pub fn plan_file_copy(dest: DestKind) -> (r: CopyAction)
    ensures
        r == match dest {
            DestKind::Missing => CopyAction::Place,
            DestKind::RegularFile => CopyAction::BackupAndReplace,
            DestKind::Symlink => CopyAction::Replace,
            DestKind::Directory => CopyAction::Conflict,
        },
{
    match dest {
        DestKind::Missing => CopyAction::Place,
        DestKind::RegularFile => CopyAction::BackupAndReplace,
        DestKind::Symlink => CopyAction::Replace,
        DestKind::Directory => CopyAction::Conflict,
    }
}

/// The integrity gate: with an expected digest, an archive that neither
/// matches nor extracts is rejected, and one that extracts despite a
/// mismatch proceeds with a warning.
pub fn integrity_decision(expected_given: bool, digest_ok: bool, extracted_ok: bool) -> (r:
    IntegrityDecision)
    ensures
        r == if !extracted_ok {
            if expected_given && !digest_ok {
                IntegrityDecision::RejectCorrupted
            } else {
                IntegrityDecision::ExtractionFailed
            }
        } else if expected_given && !digest_ok {
            IntegrityDecision::ProceedWithWarning
        } else {
            IntegrityDecision::Proceed
        },
{
    if !extracted_ok {
        if expected_given && !digest_ok {
            IntegrityDecision::RejectCorrupted
        } else {
            IntegrityDecision::ExtractionFailed
        }
    } else if expected_given && !digest_ok {
        IntegrityDecision::ProceedWithWarning
    } else {
        IntegrityDecision::Proceed
    }
}

/// The names of the installed packages among `v[..n]`, other than `name`,
/// that list `name` among their dependencies.
pub open spec fn blockers_upto(v: Seq<PackageManifest>, n: int, name: Seq<char>) -> Seq<Seq<char>>
    decreases n,
{
    if n <= 0 || n > v.len() {
        seq![]
    } else {
        blockers_upto(v, n - 1, name) + if v[n - 1].name@ != name && has_name(
            v[n - 1].depends@,
            name,
        ) {
            seq![v[n - 1].name@]
        } else {
            seq![]
        }
    }
}

/// The installed packages that depend on `name` and so block its removal.
pub fn removal_blockers(installed: &Vec<PackageManifest>, name: &String) -> (r: Vec<String>)
    ensures
        views(r@) == blockers_upto(installed@, installed@.len() as int, name@),
{
    let mut r: Vec<String> = Vec::new();
    let mut i: usize = 0;
    while i < installed.len()
        invariant
            i <= installed@.len(),
            views(r@) == blockers_upto(installed@, i as int, name@),
        decreases installed.len() - i,
    {
        let m = &installed[i];
        if m.name != *name && contains_name(&m.depends, name) {
            let ghost before = r@;
            r.push(m.name.clone());
            assert(views(r@) =~= views(before).push(m.name@));
        } else {
            assert(blockers_upto(installed@, i + 1, name@) =~= blockers_upto(installed@, i as int, name@));
        }
        i = i + 1;
    }
    r
}

/// The phases of one package install, in their order.
#[derive(Debug, Clone, Copy, PartialEq, Eq, Structural)]
pub enum InstallPhase {
    Extract,
    VerifyChecksum,
    PreHook,
    Copy,
    PostHook,
    Ledger,
    Done,
    RolledBack,
    Aborted,
}

/// How a phase ended.
#[derive(Debug, Clone, Copy, PartialEq, Eq, Structural)]
pub enum PhaseOutcome {
    Succeeded,
    Failed,
}

/// What to do next.
#[derive(Debug, Clone, Copy, PartialEq, Eq, Structural)]
pub enum InstallAction {
    /// Run the phase now current.
    RunNext,
    /// Undo the transaction: the filesystem has been touched.
    Rollback,
    /// Stop: nothing was changed yet.
    Abort,
    /// The package is installed.
    Finish,
}

/// The phase after `p` when it succeeds.
pub open spec fn next_phase(p: InstallPhase) -> InstallPhase {
    match p {
        InstallPhase::Extract => InstallPhase::VerifyChecksum,
        InstallPhase::VerifyChecksum => InstallPhase::PreHook,
        InstallPhase::PreHook => InstallPhase::Copy,
        InstallPhase::Copy => InstallPhase::PostHook,
        InstallPhase::PostHook => InstallPhase::Ledger,
        InstallPhase::Ledger => InstallPhase::Done,
        other => other,
    }
}

/// The phase changes the install root: copying has begun.
pub open spec fn touches_root(p: InstallPhase) -> bool {
    p == InstallPhase::Copy || p == InstallPhase::PostHook || p == InstallPhase::Ledger
}

/// One step of an install: given the phase just run and how it ended, the
/// phase now current and the action to take. A failure once copying began
/// (copy, post-install hook or ledger) rolls back; an earlier failure
/// aborts; success moves to the next phase, and after the ledger finishes.
pub fn install_step(phase: InstallPhase, outcome: PhaseOutcome) -> (r: (InstallPhase, InstallAction))
    ensures
        phase == InstallPhase::Done || phase == InstallPhase::RolledBack || phase == InstallPhase::Aborted
            ==> r == (phase, InstallAction::Finish),
        !(phase == InstallPhase::Done || phase == InstallPhase::RolledBack || phase
            == InstallPhase::Aborted) ==> match outcome {
            PhaseOutcome::Failed => if touches_root(phase) {
                r == (InstallPhase::RolledBack, InstallAction::Rollback)
            } else {
                r == (InstallPhase::Aborted, InstallAction::Abort)
            },
            PhaseOutcome::Succeeded => if phase == InstallPhase::Ledger {
                r == (InstallPhase::Done, InstallAction::Finish)
            } else {
                r == (next_phase(phase), InstallAction::RunNext)
            },
        },
{
    match phase {
        InstallPhase::Done | InstallPhase::RolledBack | InstallPhase::Aborted => (phase, InstallAction::Finish),
        _ => match outcome {
            PhaseOutcome::Failed => match phase {
                InstallPhase::Copy | InstallPhase::PostHook | InstallPhase::Ledger => (
                    InstallPhase::RolledBack,
                    InstallAction::Rollback,
                ),
                _ => (InstallPhase::Aborted, InstallAction::Abort),
            },
            PhaseOutcome::Succeeded => match phase {
                InstallPhase::Extract => (InstallPhase::VerifyChecksum, InstallAction::RunNext),
                InstallPhase::VerifyChecksum => (InstallPhase::PreHook, InstallAction::RunNext),
                InstallPhase::PreHook => (InstallPhase::Copy, InstallAction::RunNext),
                InstallPhase::Copy => (InstallPhase::PostHook, InstallAction::RunNext),
                InstallPhase::PostHook => (InstallPhase::Ledger, InstallAction::RunNext),
                _ => (InstallPhase::Done, InstallAction::Finish),
            },
        },
    }
}

/// Some installed manifest is named `name`.
pub open spec fn installed_named(installed: Seq<PackageManifest>, name: Seq<char>) -> bool {
    exists|i: int| 0 <= i < installed.len() && (#[trigger] installed[i]).name@ == name
}

/// Whether `name` may be removed: it must be installed, and no other
/// installed package may depend on it.
pub fn removal_check(installed: &Vec<PackageManifest>, name: &String) -> (r: Result<(), PkgError>)
    ensures
        !installed_named(installed@, name@) <==> r matches Err(PkgError::PackageNotFound(_)),
        installed_named(installed@, name@) && blockers_upto(installed@, installed@.len() as int, name@).len() > 0
            <==> r matches Err(PkgError::Conflict(_, _)),
        r is Ok <==> installed_named(installed@, name@) && blockers_upto(
            installed@,
            installed@.len() as int,
            name@,
        ).len() == 0,
{
    let mut found = false;
    let mut i: usize = 0;
    while i < installed.len()
        invariant
            i <= installed@.len(),
            found == exists|j: int| 0 <= j < i && (#[trigger] installed@[j]).name@ == name@,
        decreases installed.len() - i,
    {
        if installed[i].name == *name {
            found = true;
        }
        i = i + 1;
    }
    if !found {
        return Err(PkgError::PackageNotFound(name.clone()));
    }
    let blockers = removal_blockers(installed, name);
    if blockers.len() > 0 {
        return Err(PkgError::Conflict(name.clone(), blockers[0].clone()));
    }
    assert(views(blockers@).len() == blockers@.len());
    Ok(())
}

} // verus!
