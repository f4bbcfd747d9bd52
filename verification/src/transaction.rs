//! Staged file replacement shared by formatting and safe lint fixes.
//!
//! A transaction says which file operation comes next and is told how it went.
//! Every temporary file is owned until it is renamed or deliberately retained
//! for recovery. Handled commit failures roll back earlier replacements; this
//! is not a crash-recovery journal or an atomic transaction across files.
use crate::collections;
use crate::numbers;
use crate::paths;
use crate::checks::long_phrase;
use crate::checks::phrase;
use crate::collections::join;
use crate::collections::push_text;
use crate::numbers::decimal_chars;
use crate::paths::parent_path;
use crate::paths::path_file_name;
use crate::paths::push_path;
use crate::text::append_chars;
use crate::text::chars_of;
use crate::text::same_str;
use crate::text::string_of;
use vstd::prelude::*;

verus! {

/// How often a name for a temporary file is tried.
pub const TEMPORARY_TRIES: u8 = 100;

/// The kind of a failure.
#[derive(Clone, Copy, Debug, Eq, PartialEq, Structural)]
pub enum FaultKind {
    InvalidInput,
    PermissionDenied,
    Interrupted,
    AlreadyExists,
    NotFound,
    Other,
}

/// A failure of a file operation.
#[derive(Clone, Debug, Eq, PartialEq)]
pub struct Fault {
    pub kind: FaultKind,
    pub message: String,
}

#[verifier::ext_equal]
pub struct FaultView {
    pub kind: FaultKind,
    pub message: Seq<char>,
}

impl Fault {
    pub open spec fn view(&self) -> FaultView {
        FaultView { kind: self.kind, message: self.message@ }
    }

    fn copy(&self) -> (r: Fault)
        ensures
            r@ == self@,
    {
        Fault { kind: self.kind, message: self.message.clone() }
    }
}

/// A file that is to be replaced.
#[derive(Clone, Debug, Eq, PartialEq)]
pub struct WriteRequest {
    pub path: String,
    pub original: String,
    pub replacement: String,
}

#[verifier::ext_equal]
pub struct RequestView {
    pub path: Seq<char>,
    pub original: Seq<char>,
    pub replacement: Seq<char>,
}

impl WriteRequest {
    pub open spec fn view(&self) -> RequestView {
        RequestView {
            path: self.path@,
            original: self.original@,
            replacement: self.replacement@,
        }
    }
}

/// The contents of a list of requests.
pub open spec fn request_views(items: Seq<WriteRequest>) -> Seq<RequestView> {
    items.map_values(|r: WriteRequest| r@)
}

/// Those of `items[k..]` that change something.
pub open spec fn changes_from(items: Seq<RequestView>, k: int) -> Seq<RequestView>
    decreases items.len() - k,
{
    if k < 0 || k >= items.len() {
        Seq::empty()
    } else if items[k].original == items[k].replacement {
        changes_from(items, k + 1)
    } else {
        seq![items[k]] + changes_from(items, k + 1)
    }
}

// ---------------------------------------------------------------------------
// Operations
// ---------------------------------------------------------------------------
/// What a look at a file shows.
#[derive(Debug)]
pub struct Inspection {
    /// Why the file could not be looked at.
    pub failure: Option<Fault>,
    /// It is a regular file, neither a directory nor a symbolic link.
    pub regular: bool,
    pub readonly: bool,
    /// Its text; why it could not be read.
    pub contents: Result<String, Fault>,
}

#[verifier::ext_equal]
pub struct InspectionView {
    pub failure: Option<FaultView>,
    pub regular: bool,
    pub readonly: bool,
    pub contents: Result<Seq<char>, FaultView>,
}

impl Inspection {
    pub open spec fn view(&self) -> InspectionView {
        InspectionView {
            failure: match self.failure {
                Some(fault) => Some(fault@),
                None => None,
            },
            regular: self.regular,
            readonly: self.readonly,
            contents: match self.contents {
                Ok(text) => Ok(text@),
                Err(fault) => Err(fault@),
            },
        }
    }
}

/// Why a file may not be replaced: it has to be a regular file that can be
/// written and that holds what is expected.
pub open spec fn source_fault(path: Seq<char>, i: InspectionView, expected: Seq<char>) -> Option<
    FaultView,
> {
    match i.failure {
        Some(fault) => Some(fault),
        None => if !i.regular {
            Some(
                FaultView {
                    kind: FaultKind::InvalidInput,
                    message: ""@ + path
                        + " is not a regular file; refusing to replace directories or symbolic links"@,
                },
            )
        } else if i.readonly {
            Some(
                FaultView {
                    kind: FaultKind::PermissionDenied,
                    message: ""@ + path + " is read-only; refusing to replace it"@,
                },
            )
        } else {
            match i.contents {
                Err(fault) => Some(fault),
                Ok(text) => if text == expected {
                    None
                } else {
                    Some(
                        FaultView {
                            kind: FaultKind::Interrupted,
                            message: ""@ + path
                                + " changed while writes were being prepared or committed"@,
                        },
                    )
                },
            }
        },
    }
}

/// Checks that a file may be replaced.
pub fn validate_source(path: &str, inspection: &Inspection, expected: &str) -> (r: Result<
    (),
    Fault,
>)
    ensures
        match source_fault(path@, inspection@, expected@) {
            Some(fault) => r matches Err(found) && found@ == fault,
            None => r is Ok,
        },
{
    if let Some(fault) = &inspection.failure {
        return Err(fault.copy());
    }
    let name = chars_of(path);
    if !inspection.regular {
        let message = phrase(
            "",
            name.as_slice(),
            " is not a regular file; refusing to replace directories or symbolic links",
        );
        return Err(
            Fault { kind: FaultKind::InvalidInput, message: string_of(message.as_slice()) },
        );
    }
    if inspection.readonly {
        let message = phrase("", name.as_slice(), " is read-only; refusing to replace it");
        return Err(
            Fault { kind: FaultKind::PermissionDenied, message: string_of(message.as_slice()) },
        );
    }
    match &inspection.contents {
        Err(fault) => Err(fault.copy()),
        Ok(text) => if same_str(text.as_str(), expected) {
            Ok(())
        } else {
            let message = phrase(
                "",
                name.as_slice(),
                " changed while writes were being prepared or committed",
            );
            Err(Fault { kind: FaultKind::Interrupted, message: string_of(message.as_slice()) })
        },
    }
}

/// A file operation.
#[derive(Clone, Debug, Eq, PartialEq)]
pub enum Action {
    /// Look at a file.
    Inspect { path: String },
    /// Create a file that is not there yet, with the permissions of another,
    /// and sync it.
    Create { path: String, contents: String, like: String },
    /// Rename a file over another.
    Replace { from: String, to: String },
    /// Sync a directory.
    Sync { directory: String },
    /// Remove a file.
    Remove { path: String },
    /// There is nothing to do.
    Idle,
}

pub enum ActionView {
    Inspect { path: Seq<char> },
    Create { path: Seq<char>, contents: Seq<char>, like: Seq<char> },
    Replace { from: Seq<char>, to: Seq<char> },
    Sync { directory: Seq<char> },
    Remove { path: Seq<char> },
    Idle,
}

impl Action {
    pub open spec fn view(&self) -> ActionView {
        match *self {
            Action::Inspect { path } => ActionView::Inspect { path: path@ },
            Action::Create { path, contents, like } => ActionView::Create {
                path: path@,
                contents: contents@,
                like: like@,
            },
            Action::Replace { from, to } => ActionView::Replace { from: from@, to: to@ },
            Action::Sync { directory } => ActionView::Sync { directory: directory@ },
            Action::Remove { path } => ActionView::Remove { path: path@ },
            Action::Idle => ActionView::Idle,
        }
    }
}

/// How a file operation went.
#[derive(Debug)]
pub enum Reply {
    /// What a look at a file shows.
    Inspected(Inspection),
    /// It was done.
    Done,
    /// The file that was to be created is there already.
    Exists,
    /// It failed.
    Failed(Fault),
}

pub enum ReplyView {
    Inspected(InspectionView),
    Done,
    Exists,
    Failed(FaultView),
}

impl Reply {
    pub open spec fn view(&self) -> ReplyView {
        match *self {
            Reply::Inspected(inspection) => ReplyView::Inspected(inspection@),
            Reply::Done => ReplyView::Done,
            Reply::Exists => ReplyView::Exists,
            Reply::Failed(fault) => ReplyView::Failed(fault@),
        }
    }
}

/// The fault of a reply that does not fit.
pub open spec fn misfit() -> FaultView {
    FaultView { kind: FaultKind::Other, message: "unexpected reply"@ }
}

/// The fault in the reply to an operation that is done or fails.
pub open spec fn reply_fault(reply: ReplyView) -> Option<FaultView> {
    match reply {
        ReplyView::Done => None,
        ReplyView::Failed(fault) => Some(fault),
        ReplyView::Inspected(inspection) => Some(misfit()),
        ReplyView::Exists => Some(misfit()),
    }
}

/// The fault in the reply to a look at a file.
pub open spec fn inspection_fault(reply: ReplyView, path: Seq<char>, expected: Seq<char>) -> Option<
    FaultView,
> {
    match reply {
        ReplyView::Inspected(inspection) => source_fault(path, inspection, expected),
        ReplyView::Failed(fault) => Some(fault),
        ReplyView::Done => Some(misfit()),
        ReplyView::Exists => Some(misfit()),
    }
}

fn misfit_fault() -> (r: Fault)
    ensures
        r@ == misfit(),
{
    Fault { kind: FaultKind::Other, message: "unexpected reply".to_owned() }
}

fn fault_in_reply(reply: &Reply) -> (r: Option<Fault>)
    ensures
        optional_fault(r) == reply_fault(reply@),
{
    match reply {
        Reply::Done => None,
        Reply::Failed(fault) => Some(fault.copy()),
        Reply::Inspected(_) => Some(misfit_fault()),
        Reply::Exists => Some(misfit_fault()),
    }
}

fn fault_in_inspection(reply: &Reply, path: &str, expected: &str) -> (r: Option<Fault>)
    ensures
        optional_fault(r) == inspection_fault(reply@, path@, expected@),
{
    match reply {
        Reply::Inspected(inspection) => match validate_source(path, inspection, expected) {
            Ok(_) => None,
            Err(fault) => Some(fault),
        },
        Reply::Failed(fault) => Some(fault.copy()),
        Reply::Done => Some(misfit_fault()),
        Reply::Exists => Some(misfit_fault()),
    }
}

pub open spec fn optional_fault(fault: Option<Fault>) -> Option<FaultView> {
    match fault {
        Some(fault) => Some(fault@),
        None => None,
    }
}

// ---------------------------------------------------------------------------
// Names
// ---------------------------------------------------------------------------
/// The directory of a file.
pub open spec fn directory_of(path: Seq<char>) -> Seq<char> {
    match paths::lexical_parent(path) {
        Some(above) => if above.len() > 0 {
            above
        } else {
            "."@
        },
        None => "."@,
    }
}

/// The directory of a file.
pub fn parent_of(path: &str) -> (r: String)
    ensures
        r@ == directory_of(path@),
{
    match parent_path(path) {
        Some(above) => if chars_of(above.as_str()).len() > 0 {
            above
        } else {
            ".".to_owned()
        },
        None => ".".to_owned(),
    }
}

/// The name of a temporary file beside a file with a name.
pub open spec fn temporary_name(name: Seq<char>, process: u64, purpose: Seq<char>, id: u64) -> Seq<
    char,
> {
    "."@ + name + ".bbtidy."@ + numbers::decimal(process as nat) + "."@ + purpose + "."@ + numbers::decimal(
        id as nat,
    ) + ".tmp"@
}

/// The path of a temporary file beside a file.
pub open spec fn temporary_path(path: Seq<char>, process: u64, purpose: Seq<char>, id: u64) -> Seq<
    char,
> {
    paths::pushed_path(directory_of(path), temporary_name(paths::file_name(path)->0, process, purpose, id))
}

fn temporary_file(path: &str, name: &str, process: u64, purpose: &str, id: u64) -> (r: String)
    requires
        paths::file_name(path@) == Some(name@),
    ensures
        r@ == temporary_path(path@, process, purpose@, id),
{
    let mut out = chars_of(".");
    append_chars(&mut out, chars_of(name).as_slice());
    append_chars(&mut out, chars_of(".bbtidy.").as_slice());
    append_chars(&mut out, decimal_chars(process).as_slice());
    append_chars(&mut out, chars_of(".").as_slice());
    append_chars(&mut out, chars_of(purpose).as_slice());
    append_chars(&mut out, chars_of(".").as_slice());
    append_chars(&mut out, decimal_chars(id).as_slice());
    append_chars(&mut out, chars_of(".tmp").as_slice());
    push_path(parent_of(path).as_str(), string_of(out.as_slice()).as_str())
}

// ---------------------------------------------------------------------------
// The transaction
// ---------------------------------------------------------------------------
/// How far a transaction is. A number is the position of a request.
#[derive(Clone, Copy, Debug, Eq, PartialEq, Structural)]
pub enum Phase {
    /// The next file is looked at before its temporary files are written.
    StageInspect,
    /// The replacement is written to a temporary file; the number counts the
    /// names that were taken already.
    StageOutput(u8),
    /// The original is written to a temporary file.
    StageBackup(u8),
    /// All temporary files are there.
    Staged,
    CommitInspect(usize),
    CommitReplace(usize),
    CommitSync(usize),
    RestoreInspect(usize),
    RestoreReplace(usize),
    RestoreSync(usize),
    CleanRemove(usize),
    CleanSync(usize),
    DropOutput(usize),
    DropBackup(usize),
    Finished,
}

/// A set of files that are replaced together.
pub struct Transaction {
    requests: Vec<WriteRequest>,
    process: u64,
    next_id: u64,
    outputs: Vec<String>,
    backups: Vec<String>,
    committed: usize,
    fault: Option<Fault>,
    errors: Vec<String>,
    phase: Phase,
}

#[verifier::ext_equal]
pub struct TransactionView {
    /// The files that change.
    pub requests: Seq<RequestView>,
    /// What names of temporary files are made of.
    pub process: u64,
    pub next_id: u64,
    /// The temporary files with the replacements, and with the originals.
    pub outputs: Seq<Seq<char>>,
    pub backups: Seq<Seq<char>>,
    /// How many files were replaced.
    pub committed: int,
    /// Why the transaction failed.
    pub fault: Option<FaultView>,
    /// What went wrong while it was rolled back or cleaned up.
    pub errors: Seq<Seq<char>>,
    pub phase: Phase,
}

/// A transaction on some changes, with nothing done yet.
pub open spec fn opened(requests: Seq<RequestView>, process: u64, next_id: u64) -> TransactionView {
    TransactionView {
        requests,
        process,
        next_id,
        outputs: Seq::empty(),
        backups: Seq::empty(),
        committed: 0,
        fault: None,
        errors: Seq::empty(),
        phase: if requests.len() == 0 {
            Phase::Staged
        } else {
            Phase::StageInspect
        },
    }
}

/// The phase in which the temporary files that are still owned are removed,
/// from the file `k` on.
pub open spec fn dropping(t: TransactionView, k: int) -> Phase {
    if k < t.outputs.len() {
        Phase::DropOutput(k as usize)
    } else {
        Phase::Finished
    }
}

/// A transaction that could not be staged.
pub open spec fn unstaged(t: TransactionView, fault: FaultView) -> TransactionView {
    TransactionView { fault: Some(fault), phase: dropping(t, 0), ..t }
}

/// A transaction that could not be committed.
pub open spec fn uncommitted(t: TransactionView, fault: FaultView) -> TransactionView {
    TransactionView {
        fault: Some(fault),
        phase: if t.committed > 0 {
            Phase::RestoreInspect((t.committed - 1) as usize)
        } else {
            dropping(t, 0)
        },
        ..t
    }
}

/// The file `k` was restored as far as it could be; `errors` says what failed.
pub open spec fn after_restore(t: TransactionView, k: int, errors: Seq<Seq<char>>) -> TransactionView {
    TransactionView {
        errors: t.errors + errors,
        phase: if k > 0 {
            Phase::RestoreInspect((k - 1) as usize)
        } else {
            dropping(t, t.committed)
        },
        ..t
    }
}

/// The backup of the file `k` was removed as far as it could be.
pub open spec fn after_clean(t: TransactionView, k: int, errors: Seq<Seq<char>>) -> TransactionView {
    TransactionView {
        errors: t.errors + errors,
        phase: if k + 1 < t.requests.len() {
            Phase::CleanRemove((k + 1) as usize)
        } else {
            Phase::Finished
        },
        ..t
    }
}

/// What is said of a file that could not be restored.
pub open spec fn unrestored(t: TransactionView, k: int, fault: FaultView) -> Seq<char> {
    "could not restore "@ + t.requests[k].path + ": "@ + fault.message
        + "; original preserved at "@ + t.backups[k]
}

/// The fault where no name for a temporary file is free.
pub open spec fn no_name_left() -> FaultView {
    FaultView {
        kind: FaultKind::AlreadyExists,
        message: "could not allocate a temporary output file"@,
    }
}

/// The operation that comes next.
pub open spec fn action_of(t: TransactionView) -> ActionView {
    let at = t.backups.len() as int;
    match t.phase {
        Phase::StageInspect => ActionView::Inspect { path: t.requests[at].path },
        Phase::StageOutput(tries) => ActionView::Create {
            path: temporary_path(t.requests[at].path, t.process, "output"@, t.next_id),
            contents: t.requests[at].replacement,
            like: t.requests[at].path,
        },
        Phase::StageBackup(tries) => ActionView::Create {
            path: temporary_path(t.requests[at].path, t.process, "backup"@, t.next_id),
            contents: t.requests[at].original,
            like: t.requests[at].path,
        },
        Phase::Staged => ActionView::Idle,
        Phase::CommitInspect(k) => ActionView::Inspect { path: t.requests[k as int].path },
        Phase::CommitReplace(k) => ActionView::Replace {
            from: t.outputs[k as int],
            to: t.requests[k as int].path,
        },
        Phase::CommitSync(k) => ActionView::Sync {
            directory: directory_of(t.requests[k as int].path),
        },
        Phase::RestoreInspect(k) => ActionView::Inspect { path: t.requests[k as int].path },
        Phase::RestoreReplace(k) => ActionView::Replace {
            from: t.backups[k as int],
            to: t.requests[k as int].path,
        },
        Phase::RestoreSync(k) => ActionView::Sync {
            directory: directory_of(t.requests[k as int].path),
        },
        Phase::CleanRemove(k) => ActionView::Remove { path: t.backups[k as int] },
        Phase::CleanSync(k) => ActionView::Sync {
            directory: directory_of(t.requests[k as int].path),
        },
        Phase::DropOutput(k) => ActionView::Remove { path: t.outputs[k as int] },
        Phase::DropBackup(k) => ActionView::Remove { path: t.backups[k as int] },
        Phase::Finished => ActionView::Idle,
    }
}

/// The number of the next temporary file.
pub open spec fn id_after(id: u64) -> u64 {
    if id == u64::MAX {
        0
    } else {
        (id + 1) as u64
    }
}

/// The transaction after the look at the file that is staged next.
pub open spec fn stage_inspected(t: TransactionView, reply: ReplyView) -> TransactionView {
    let request = t.requests[t.backups.len() as int];
    match inspection_fault(reply, request.path, request.original) {
        Some(fault) => unstaged(t, fault),
        None => if paths::file_name(request.path) is None {
            unstaged(
                t,
                FaultView { kind: FaultKind::InvalidInput, message: "path has no file name"@ },
            )
        } else {
            TransactionView { phase: Phase::StageOutput(0), ..t }
        },
    }
}

/// The transaction after a temporary file for a replacement was to be created.
pub open spec fn output_created(t: TransactionView, reply: ReplyView, tries: u8) -> TransactionView {
    let next = TransactionView { next_id: id_after(t.next_id), ..t };
    let path = temporary_path(
        t.requests[t.backups.len() as int].path,
        t.process,
        "output"@,
        t.next_id,
    );
    match reply {
        ReplyView::Exists => if tries + 1 < TEMPORARY_TRIES {
            TransactionView { phase: Phase::StageOutput((tries + 1) as u8), ..next }
        } else {
            unstaged(next, no_name_left())
        },
        _ => match reply_fault(reply) {
            Some(fault) => unstaged(next, fault),
            None => TransactionView {
                outputs: t.outputs.push(path),
                phase: Phase::StageBackup(0),
                ..next
            },
        },
    }
}

/// The transaction after a temporary file for an original was to be created.
pub open spec fn backup_created(t: TransactionView, reply: ReplyView, tries: u8) -> TransactionView {
    let next = TransactionView { next_id: id_after(t.next_id), ..t };
    let path = temporary_path(
        t.requests[t.backups.len() as int].path,
        t.process,
        "backup"@,
        t.next_id,
    );
    match reply {
        ReplyView::Exists => if tries + 1 < TEMPORARY_TRIES {
            TransactionView { phase: Phase::StageBackup((tries + 1) as u8), ..next }
        } else {
            unstaged(next, no_name_left())
        },
        _ => match reply_fault(reply) {
            Some(fault) => unstaged(next, fault),
            None => TransactionView {
                backups: t.backups.push(path),
                phase: if t.backups.len() + 1 < t.requests.len() {
                    Phase::StageInspect
                } else {
                    Phase::Staged
                },
                ..next
            },
        },
    }
}

/// The transaction after a file was to be put in place, or synced.
pub open spec fn commit_step(t: TransactionView, reply: ReplyView, k: int, replaced: bool) -> TransactionView {
    match reply_fault(reply) {
        Some(fault) => uncommitted(t, fault),
        None => if !replaced {
            TransactionView { committed: k + 1, phase: Phase::CommitSync(k as usize), ..t }
        } else {
            TransactionView {
                phase: if k + 1 < t.requests.len() {
                    Phase::CommitInspect((k + 1) as usize)
                } else {
                    Phase::CleanRemove(0)
                },
                ..t
            }
        },
    }
}

/// The transaction after the next operation.
pub open spec fn step(t: TransactionView, reply: ReplyView) -> TransactionView {
    match t.phase {
        Phase::StageInspect => stage_inspected(t, reply),
        Phase::StageOutput(tries) => output_created(t, reply, tries),
        Phase::StageBackup(tries) => backup_created(t, reply, tries),
        Phase::Staged => t,
        Phase::CommitInspect(k) => match inspection_fault(
            reply,
            t.requests[k as int].path,
            t.requests[k as int].original,
        ) {
            Some(fault) => uncommitted(t, fault),
            None => TransactionView { phase: Phase::CommitReplace(k), ..t },
        },
        Phase::CommitReplace(k) => commit_step(t, reply, k as int, false),
        Phase::CommitSync(k) => commit_step(t, reply, k as int, true),
        // Edits made after the replacement are not overwritten: the original
        // stays in its backup.
        Phase::RestoreInspect(k) => match inspection_fault(
            reply,
            t.requests[k as int].path,
            t.requests[k as int].replacement,
        ) {
            Some(fault) => after_restore(t, k as int, seq![unrestored(t, k as int, fault)]),
            None => TransactionView { phase: Phase::RestoreReplace(k), ..t },
        },
        Phase::RestoreReplace(k) => match reply_fault(reply) {
            Some(fault) => after_restore(t, k as int, seq![unrestored(t, k as int, fault)]),
            None => TransactionView { phase: Phase::RestoreSync(k), ..t },
        },
        Phase::RestoreSync(k) => match reply_fault(reply) {
            Some(fault) => after_restore(
                t,
                k as int,
                seq![
                    ""@ + t.requests[k as int].path + " restored but directory sync failed: "@
                        + fault.message + ""@,
                ],
            ),
            None => after_restore(t, k as int, Seq::empty()),
        },
        Phase::CleanRemove(k) => match reply_fault(reply) {
            Some(fault) => after_clean(
                t,
                k as int,
                seq![""@ + t.backups[k as int] + ": "@ + fault.message + ""@],
            ),
            None => TransactionView { phase: Phase::CleanSync(k), ..t },
        },
        Phase::CleanSync(k) => match reply_fault(reply) {
            Some(fault) => after_clean(
                t,
                k as int,
                seq![""@ + t.backups[k as int] + ": "@ + fault.message + ""@],
            ),
            None => after_clean(t, k as int, Seq::empty()),
        },
        Phase::DropOutput(k) => TransactionView {
            phase: if k < t.backups.len() {
                Phase::DropBackup(k)
            } else {
                dropping(t, k + 1)
            },
            ..t
        },
        Phase::DropBackup(k) => TransactionView { phase: dropping(t, k + 1), ..t },
        Phase::Finished => t,
    }
}

/// A staged transaction that is to be committed.
pub open spec fn committing(t: TransactionView) -> TransactionView {
    TransactionView {
        phase: if t.requests.len() == 0 {
            Phase::Finished
        } else {
            Phase::CommitInspect(0)
        },
        ..t
    }
}

/// A staged transaction that is given up.
pub open spec fn abandoned(t: TransactionView) -> TransactionView {
    TransactionView { phase: dropping(t, 0), ..t }
}

/// How a transaction ended.
pub open spec fn outcome(t: TransactionView) -> Option<FaultView> {
    match t.fault {
        Some(fault) => if t.errors.len() == 0 {
            Some(fault)
        } else {
            Some(
                FaultView {
                    kind: FaultKind::Other,
                    message: ""@ + fault.message + "; rollback failed: "@ + collections::joined(
                        t.errors,
                        "; "@,
                    ) + ""@,
                },
            )
        },
        None => if t.errors.len() == 0 {
            None
        } else {
            Some(
                FaultView {
                    kind: FaultKind::Other,
                    message:
                        "all source changes were committed, but backup cleanup failed: "@
                        + collections::joined(t.errors, "; "@) + ""@,
                },
            )
        },
    }
}

/// The positions in a transaction are those of its requests, and its phase
/// agrees with the temporary files that are there.
pub open spec fn sound(t: TransactionView) -> bool {
    let n = t.requests.len() as int;
    &&& n <= usize::MAX
    &&& 0 <= t.committed <= n
    &&& match t.phase {
        Phase::StageInspect => t.outputs.len() == t.backups.len() < n && t.committed == 0
            && t.fault is None && t.errors.len() == 0,
        Phase::StageOutput(tries) => t.outputs.len() == t.backups.len() < n && t.committed == 0
            && t.fault is None && t.errors.len() == 0 && tries < TEMPORARY_TRIES && paths::file_name(
            t.requests[t.backups.len() as int].path,
        ) is Some,
        Phase::StageBackup(tries) => t.outputs.len() == t.backups.len() + 1 <= n && t.committed == 0
            && t.fault is None && t.errors.len() == 0 && tries < TEMPORARY_TRIES && paths::file_name(
            t.requests[t.backups.len() as int].path,
        ) is Some,
        Phase::Staged => t.outputs.len() == t.backups.len() == n && t.committed == 0
            && t.fault is None && t.errors.len() == 0,
        Phase::CommitInspect(k) => t.outputs.len() == t.backups.len() == n && t.committed == k < n
            && t.fault is None && t.errors.len() == 0,
        Phase::CommitReplace(k) => t.outputs.len() == t.backups.len() == n && t.committed == k < n
            && t.fault is None && t.errors.len() == 0,
        Phase::CommitSync(k) => t.outputs.len() == t.backups.len() == n && t.committed == k + 1
            && t.fault is None && t.errors.len() == 0,
        Phase::RestoreInspect(k) => t.outputs.len() == t.backups.len() == n && k < t.committed
            && t.fault is Some,
        Phase::RestoreReplace(k) => t.outputs.len() == t.backups.len() == n && k < t.committed
            && t.fault is Some,
        Phase::RestoreSync(k) => t.outputs.len() == t.backups.len() == n && k < t.committed
            && t.fault is Some,
        Phase::CleanRemove(k) => t.outputs.len() == t.backups.len() == n && t.committed == n
            && k < n && t.fault is None,
        Phase::CleanSync(k) => t.outputs.len() == t.backups.len() == n && t.committed == n && k < n
            && t.fault is None,
        Phase::DropOutput(k) => t.backups.len() <= t.outputs.len() <= t.backups.len() + 1
            && t.outputs.len() <= n && t.committed <= k < t.outputs.len() && (t.fault is None
            ==> t.committed == 0),
        Phase::DropBackup(k) => t.backups.len() <= t.outputs.len() <= t.backups.len() + 1
            && t.outputs.len() <= n && t.committed <= k < t.backups.len() && (t.fault is None
            ==> t.committed == 0),
        Phase::Finished => t.committed <= t.outputs.len() && t.committed <= t.backups.len(),
    }
}

impl Transaction {
    pub closed spec fn view(&self) -> TransactionView {
        TransactionView {
            requests: request_views(self.requests@),
            process: self.process,
            next_id: self.next_id,
            outputs: collections::string_texts(self.outputs@),
            backups: collections::string_texts(self.backups@),
            committed: self.committed as int,
            fault: optional_fault(self.fault),
            errors: collections::string_texts(self.errors@),
            phase: self.phase,
        }
    }

    pub open spec fn wf(&self) -> bool {
        sound(self@)
    }

    /// A transaction on some files; those that do not change are left out.
    /// `process` and `next_id` tell its temporary files from others.
    pub fn stage(requests: &Vec<WriteRequest>, process: u64, next_id: u64) -> (r: Transaction)
        ensures
            r.wf(),
            r@ == opened(changes_from(request_views(requests@), 0), process, next_id),
    {
        let ghost all = request_views(requests@);
        let mut changes: Vec<WriteRequest> = Vec::new();
        let mut k: usize = 0;
        assert(request_views(changes@) + changes_from(all, 0) =~= changes_from(all, 0));
        while k < requests.len()
            invariant
                k <= requests@.len(),
                all == request_views(requests@),
                changes@.len() <= k,
                request_views(changes@) + changes_from(all, k as int) == changes_from(all, 0),
            decreases requests@.len() - k,
        {
            assert(all[k as int] == requests@[k as int]@);
            let request = &requests[k];
            if !same_str(request.original.as_str(), request.replacement.as_str()) {
                let ghost before = request_views(changes@);
                let copy = WriteRequest {
                    path: request.path.clone(),
                    original: request.original.clone(),
                    replacement: request.replacement.clone(),
                };
                let ghost added = copy@;
                changes.push(copy);
                proof {
                    let rest = changes_from(all, k + 1);
                    assert(request_views(changes@) =~= before.push(added));
                    assert(before + (seq![added] + rest) =~= before.push(added) + rest);
                }
            }
            k += 1;
        }
        assert(request_views(changes@) + Seq::<RequestView>::empty() =~= request_views(changes@));
        let phase = if changes.len() == 0 {
            Phase::Staged
        } else {
            Phase::StageInspect
        };
        let r = Transaction {
            requests: changes,
            process,
            next_id,
            outputs: Vec::new(),
            backups: Vec::new(),
            committed: 0,
            fault: None,
            errors: Vec::new(),
            phase,
        };
        assert(r@ =~= opened(changes_from(all, 0), process, next_id));
        r
    }

    /// How far the transaction is.
    pub fn phase(&self) -> (r: Phase)
        ensures
            r == self@.phase,
    {
        self.phase
    }

    /// The number of the next temporary file.
    pub fn next_id(&self) -> (r: u64)
        ensures
            r == self@.next_id,
    {
        self.next_id
    }

    fn temporary(&self, at: usize, purpose: &str) -> (r: String)
        requires
            at < self@.requests.len(),
            paths::file_name(self@.requests[at as int].path) is Some,
        ensures
            r@ == temporary_path(
                self@.requests[at as int].path,
                self@.process,
                purpose@,
                self@.next_id,
            ),
    {
        assert(self@.requests[at as int] == self.requests@[at as int]@);
        let path = self.requests[at].path.as_str();
        match path_file_name(path) {
            Some(name) => temporary_file(path, name.as_str(), self.process, purpose, self.next_id),
            None => String::new(),
        }
    }

    /// The operation that comes next.
    pub fn next(&self) -> (r: Action)
        requires
            self.wf(),
        ensures
            r@ == action_of(self@),
    {
        let at = self.backups.len();
        proof {
            assert(self@.backups.len() == self.backups@.len());
            assert(self@.outputs.len() == self.outputs@.len());
            assert(self@.requests.len() == self.requests@.len());
            assert(forall|k: int|
                0 <= k < self.requests@.len() ==> #[trigger] self@.requests[k]
                    == self.requests@[k]@);
            assert(forall|k: int|
                0 <= k < self.outputs@.len() ==> #[trigger] self@.outputs[k] == self.outputs@[k]@);
            assert(forall|k: int|
                0 <= k < self.backups@.len() ==> #[trigger] self@.backups[k] == self.backups@[k]@);
        }
        match self.phase {
            Phase::StageInspect => Action::Inspect { path: self.requests[at].path.clone() },
            Phase::StageOutput(_) => Action::Create {
                path: self.temporary(at, "output"),
                contents: self.requests[at].replacement.clone(),
                like: self.requests[at].path.clone(),
            },
            Phase::StageBackup(_) => Action::Create {
                path: self.temporary(at, "backup"),
                contents: self.requests[at].original.clone(),
                like: self.requests[at].path.clone(),
            },
            Phase::Staged => Action::Idle,
            Phase::CommitInspect(k) => Action::Inspect { path: self.requests[k].path.clone() },
            Phase::CommitReplace(k) => Action::Replace {
                from: self.outputs[k].clone(),
                to: self.requests[k].path.clone(),
            },
            Phase::CommitSync(k) => Action::Sync {
                directory: parent_of(self.requests[k].path.as_str()),
            },
            Phase::RestoreInspect(k) => Action::Inspect { path: self.requests[k].path.clone() },
            Phase::RestoreReplace(k) => Action::Replace {
                from: self.backups[k].clone(),
                to: self.requests[k].path.clone(),
            },
            Phase::RestoreSync(k) => Action::Sync {
                directory: parent_of(self.requests[k].path.as_str()),
            },
            Phase::CleanRemove(k) => Action::Remove { path: self.backups[k].clone() },
            Phase::CleanSync(k) => Action::Sync {
                directory: parent_of(self.requests[k].path.as_str()),
            },
            Phase::DropOutput(k) => Action::Remove { path: self.outputs[k].clone() },
            Phase::DropBackup(k) => Action::Remove { path: self.backups[k].clone() },
            Phase::Finished => Action::Idle,
        }
    }

    fn drop_from(&mut self, k: usize)
        ensures
            final(self)@ == (TransactionView { phase: dropping(old(self)@, k as int), ..old(self)@ }),
    {
        assert(self@.outputs.len() == self.outputs@.len());
        if k < self.outputs.len() {
            self.phase = Phase::DropOutput(k);
        } else {
            self.phase = Phase::Finished;
        }
    }

    fn fail_stage(&mut self, fault: Fault)
        ensures
            final(self)@ == unstaged(old(self)@, fault@),
    {
        self.fault = Some(fault);
        self.drop_from(0);
    }

    fn fail_commit(&mut self, fault: Fault)
        ensures
            final(self)@ == uncommitted(old(self)@, fault@),
    {
        self.fault = Some(fault);
        if self.committed > 0 {
            self.phase = Phase::RestoreInspect(self.committed - 1);
        } else {
            self.drop_from(0);
        }
    }

    fn restored(&mut self, k: usize, error: Option<String>)
        ensures
            final(self)@ == after_restore(
                old(self)@,
                k as int,
                match error {
                    Some(error) => seq![error@],
                    None => Seq::empty(),
                },
            ),
    {
        let ghost before = self@;
        if let Some(error) = error {
            push_text(&mut self.errors, error);
            assert(self@.errors =~= before.errors + seq![error@]);
        } else {
            assert(before.errors + Seq::<Seq<char>>::empty() =~= before.errors);
        }
        if k > 0 {
            self.phase = Phase::RestoreInspect(k - 1);
        } else {
            let from = self.committed;
            self.drop_from(from);
        }
    }

    fn cleaned(&mut self, k: usize, error: Option<String>)
        requires
            k < old(self)@.requests.len(),
        ensures
            final(self)@ == after_clean(
                old(self)@,
                k as int,
                match error {
                    Some(error) => seq![error@],
                    None => Seq::empty(),
                },
            ),
    {
        let ghost before = self@;
        if let Some(error) = error {
            push_text(&mut self.errors, error);
            assert(self@.errors =~= before.errors + seq![error@]);
        } else {
            assert(before.errors + Seq::<Seq<char>>::empty() =~= before.errors);
        }
        assert(self@.requests.len() == self.requests@.len());
        let size = self.requests.len();
        if k + 1 < size {
            self.phase = Phase::CleanRemove(k + 1);
        } else {
            self.phase = Phase::Finished;
        }
    }

    fn unrestored_text(&self, k: usize, fault: &Fault) -> (r: String)
        requires
            k < self@.requests.len(),
            k < self@.backups.len(),
        ensures
            r@ == unrestored(self@, k as int, fault@),
    {
        assert(self@.requests[k as int] == self.requests@[k as int]@);
        assert(self@.backups[k as int] == self.backups@[k as int]@);
        let mut text = long_phrase(
            "could not restore ",
            chars_of(self.requests[k].path.as_str()).as_slice(),
            ": ",
            chars_of(fault.message.as_str()).as_slice(),
            "; original preserved at ",
        );
        append_chars(&mut text, chars_of(self.backups[k].as_str()).as_slice());
        string_of(text.as_slice())
    }

    fn stage_reply(&mut self, reply: &Reply)
        requires
            old(self).wf(),
            old(self)@.phase is StageInspect,
        ensures
            final(self)@ == stage_inspected(old(self)@, reply@),
    {
        let at = self.backups.len();
        assert(self@.requests[at as int] == self.requests@[at as int]@);
        let fault = fault_in_inspection(
            reply,
            self.requests[at].path.as_str(),
            self.requests[at].original.as_str(),
        );
        match fault {
            Some(fault) => {
                self.fail_stage(fault);
            },
            None => {
                if path_file_name(self.requests[at].path.as_str()).is_none() {
                    self.fail_stage(
                        Fault {
                            kind: FaultKind::InvalidInput,
                            message: "path has no file name".to_owned(),
                        },
                    );
                } else {
                    self.phase = Phase::StageOutput(0);
                }
            },
        }
    }

    fn advance_id(&mut self)
        ensures
            final(self)@ == (TransactionView { next_id: id_after(old(self)@.next_id), ..old(self)@ }),
    {
        self.next_id = if self.next_id == u64::MAX {
            0
        } else {
            self.next_id + 1
        };
    }

    fn create_reply(&mut self, reply: &Reply, tries: u8, backup: bool)
        requires
            old(self).wf(),
            tries < TEMPORARY_TRIES,
            if backup {
                old(self)@.phase == Phase::StageBackup(tries)
            } else {
                old(self)@.phase == Phase::StageOutput(tries)
            },
        ensures
            final(self)@ == (if backup {
                backup_created(old(self)@, reply@, tries)
            } else {
                output_created(old(self)@, reply@, tries)
            }),
    {
        let ghost before = self@;
        let at = self.backups.len();
        let path = self.temporary(
            at,
            if backup {
                "backup"
            } else {
                "output"
            },
        );
        self.advance_id();
        if let Reply::Exists = reply {
            if tries + 1 < TEMPORARY_TRIES {
                self.phase = if backup {
                    Phase::StageBackup(tries + 1)
                } else {
                    Phase::StageOutput(tries + 1)
                };
            } else {
                self.fail_stage(
                    Fault {
                        kind: FaultKind::AlreadyExists,
                        message: "could not allocate a temporary output file".to_owned(),
                    },
                );
            }
            return;
        }
        match fault_in_reply(reply) {
            Some(fault) => {
                self.fail_stage(fault);
            },
            None => {
                if backup {
                    push_text(&mut self.backups, path);
                    assert(self@.requests.len() == self.requests@.len());
                    self.phase = if self.backups.len() < self.requests.len() {
                        Phase::StageInspect
                    } else {
                        Phase::Staged
                    };
                } else {
                    push_text(&mut self.outputs, path);
                    self.phase = Phase::StageBackup(0);
                }
            },
        }
    }

    fn commit_reply(&mut self, reply: &Reply, k: usize, replaced: bool)
        requires
            old(self).wf(),
            k < old(self)@.requests.len(),
        ensures
            final(self)@ == commit_step(old(self)@, reply@, k as int, replaced),
    {
        assert(self@.requests.len() == self.requests@.len());
        match fault_in_reply(reply) {
            Some(fault) => {
                self.fail_commit(fault);
            },
            None => {
                if !replaced {
                    self.committed = k + 1;
                    self.phase = Phase::CommitSync(k);
                } else if k + 1 < self.requests.len() {
                    self.phase = Phase::CommitInspect(k + 1);
                } else {
                    self.phase = Phase::CleanRemove(0);
                }
            },
        }
    }

    fn inspect_reply(&self, reply: &Reply, k: usize, restore: bool) -> (r: Option<Fault>)
        requires
            k < self@.requests.len(),
        ensures
            optional_fault(r) == inspection_fault(
                reply@,
                self@.requests[k as int].path,
                if restore {
                    self@.requests[k as int].replacement
                } else {
                    self@.requests[k as int].original
                },
            ),
    {
        assert(self@.requests[k as int] == self.requests@[k as int]@);
        if restore {
            fault_in_inspection(
                reply,
                self.requests[k].path.as_str(),
                self.requests[k].replacement.as_str(),
            )
        } else {
            fault_in_inspection(
                reply,
                self.requests[k].path.as_str(),
                self.requests[k].original.as_str(),
            )
        }
    }

    fn restore_reply(&mut self, reply: &Reply)
        requires
            old(self).wf(),
            old(self)@.phase is RestoreInspect || old(self)@.phase is RestoreReplace || old(
                self,
            )@.phase is RestoreSync,
        ensures
            final(self)@ == step(old(self)@, reply@),
    {
        match self.phase {
            Phase::RestoreInspect(k) => match self.inspect_reply(reply, k, true) {
                Some(fault) => {
                    let error = self.unrestored_text(k, &fault);
                    self.restored(k, Some(error));
                },
                None => {
                    self.phase = Phase::RestoreReplace(k);
                },
            },
            Phase::RestoreReplace(k) => match fault_in_reply(reply) {
                Some(fault) => {
                    let error = self.unrestored_text(k, &fault);
                    self.restored(k, Some(error));
                },
                None => {
                    self.phase = Phase::RestoreSync(k);
                },
            },
            Phase::RestoreSync(k) => match fault_in_reply(reply) {
                Some(fault) => {
                    assert(self@.requests[k as int] == self.requests@[k as int]@);
                    let text = long_phrase(
                        "",
                        chars_of(self.requests[k].path.as_str()).as_slice(),
                        " restored but directory sync failed: ",
                        chars_of(fault.message.as_str()).as_slice(),
                        "",
                    );
                    self.restored(k, Some(string_of(text.as_slice())));
                },
                None => {
                    self.restored(k, None);
                },
            },
            _ => {},
        }
    }

    fn clean_reply(&mut self, reply: &Reply)
        requires
            old(self).wf(),
            old(self)@.phase is CleanRemove || old(self)@.phase is CleanSync,
        ensures
            final(self)@ == step(old(self)@, reply@),
    {
        let (k, removed) = match self.phase {
            Phase::CleanRemove(k) => (k, false),
            Phase::CleanSync(k) => (k, true),
            _ => {
                return;
            },
        };
        match fault_in_reply(reply) {
            Some(fault) => {
                assert(self@.backups[k as int] == self.backups@[k as int]@);
                let text = long_phrase(
                    "",
                    chars_of(self.backups[k].as_str()).as_slice(),
                    ": ",
                    chars_of(fault.message.as_str()).as_slice(),
                    "",
                );
                self.cleaned(k, Some(string_of(text.as_slice())));
            },
            None => {
                if removed {
                    self.cleaned(k, None);
                } else {
                    self.phase = Phase::CleanSync(k);
                }
            },
        }
    }

    /// Tells the transaction how the operation that came next went.
    pub fn reply(&mut self, reply: &Reply)
        requires
            old(self).wf(),
        ensures
            final(self).wf(),
            final(self)@ == step(old(self)@, reply@),
    {
        proof {
            lemma_sound_step(self@, reply@);
            assert(self@.backups.len() == self.backups@.len());
        }
        match self.phase {
            Phase::StageInspect => {
                self.stage_reply(reply);
            },
            Phase::StageOutput(tries) => {
                self.create_reply(reply, tries, false);
            },
            Phase::StageBackup(tries) => {
                self.create_reply(reply, tries, true);
            },
            Phase::Staged => {},
            Phase::CommitInspect(k) => match self.inspect_reply(reply, k, false) {
                Some(fault) => {
                    self.fail_commit(fault);
                },
                None => {
                    self.phase = Phase::CommitReplace(k);
                },
            },
            Phase::CommitReplace(k) => {
                self.commit_reply(reply, k, false);
            },
            Phase::CommitSync(k) => {
                self.commit_reply(reply, k, true);
            },
            Phase::RestoreInspect(_) => {
                self.restore_reply(reply);
            },
            Phase::RestoreReplace(_) => {
                self.restore_reply(reply);
            },
            Phase::RestoreSync(_) => {
                self.restore_reply(reply);
            },
            Phase::CleanRemove(_) => {
                self.clean_reply(reply);
            },
            Phase::CleanSync(_) => {
                self.clean_reply(reply);
            },
            Phase::DropOutput(k) => {
                if k < self.backups.len() {
                    self.phase = Phase::DropBackup(k);
                } else {
                    self.drop_from(k + 1);
                }
            },
            Phase::DropBackup(k) => {
                self.drop_from(k + 1);
            },
            Phase::Finished => {},
        }
    }

    /// Starts to put the replacements in place.
    pub fn commit(&mut self)
        requires
            old(self).wf(),
            old(self)@.phase == Phase::Staged,
        ensures
            final(self).wf(),
            final(self)@ == committing(old(self)@),
    {
        assert(self@.requests.len() == self.requests@.len());
        self.phase = if self.requests.len() == 0 {
            Phase::Finished
        } else {
            Phase::CommitInspect(0)
        };
    }

    /// Gives a staged transaction up.
    pub fn abandon(&mut self)
        requires
            old(self).wf(),
            old(self)@.phase == Phase::Staged,
        ensures
            final(self).wf(),
            final(self)@ == abandoned(old(self)@),
    {
        self.drop_from(0);
    }

    /// How the transaction ended.
    pub fn result(&self) -> (r: Result<(), Fault>)
        ensures
            match outcome(self@) {
                Some(fault) => r matches Err(found) && found@ == fault,
                None => r is Ok,
            },
    {
        assert(self@.errors.len() == self.errors@.len());
        match &self.fault {
            Some(fault) => {
                if self.errors.len() == 0 {
                    return Err(fault.copy());
                }
                let details = join(&self.errors, "; ");
                let text = long_phrase(
                    "",
                    chars_of(fault.message.as_str()).as_slice(),
                    "; rollback failed: ",
                    chars_of(details.as_str()).as_slice(),
                    "",
                );
                Err(Fault { kind: FaultKind::Other, message: string_of(text.as_slice()) })
            },
            None => {
                if self.errors.len() == 0 {
                    return Ok(());
                }
                let details = join(&self.errors, "; ");
                let text = phrase(
                    "all source changes were committed, but backup cleanup failed: ",
                    chars_of(details.as_str()).as_slice(),
                    "",
                );
                Err(Fault { kind: FaultKind::Other, message: string_of(text.as_slice()) })
            },
        }
    }
}

/// Every step keeps the positions of a transaction in order.
pub proof fn lemma_sound_step(t: TransactionView, reply: ReplyView)
    requires
        sound(t),
    ensures
        sound(step(t, reply)),
{
}

} // verus!
