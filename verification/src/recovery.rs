//! What a transaction promises of the files that it replaces.
use crate::transaction;
use crate::transaction::ActionView;
use crate::transaction::InspectionView;
use crate::transaction::Phase;
use crate::transaction::ReplyView;
use crate::transaction::RequestView;
use crate::transaction::TransactionView;
use vstd::prelude::*;

verus! {

/// The files, by path, and what they hold.
pub type Files = Map<Seq<char>, Seq<char>>;

/// A file holds a text.
pub open spec fn holds(files: Files, path: Seq<char>, text: Seq<char>) -> bool {
    files.dom().contains(path) && files[path] == text
}

/// What a file operation that went as `reply` says makes of the files.
pub open spec fn performed(action: ActionView, reply: ReplyView, files: Files) -> Files {
    if reply is Done {
        match action {
            ActionView::Create { path, contents, like } => files.insert(path, contents),
            ActionView::Replace { from, to } => files.remove(from).insert(to, files[from]),
            ActionView::Remove { path } => files.remove(path),
            ActionView::Inspect { path } => files,
            ActionView::Sync { directory } => files,
            ActionView::Idle => files,
        }
    } else {
        files
    }
}

/// A reply is true of the files: a file is created only where there was none,
/// and only a file that is there is renamed.
pub open spec fn truthful(action: ActionView, reply: ReplyView, files: Files) -> bool {
    match action {
        ActionView::Create { path, contents, like } => reply is Done ==> !files.dom().contains(
            path,
        ),
        ActionView::Replace { from, to } => reply is Done ==> files.dom().contains(from),
        ActionView::Inspect { path } => true,
        ActionView::Sync { directory } => true,
        ActionView::Remove { path } => true,
        ActionView::Idle => true,
    }
}

/// No two files of a transaction have the same path.
pub open spec fn apart(t: TransactionView) -> bool {
    &&& forall|i: int, j: int|
        0 <= i < j < t.requests.len() ==> (#[trigger] t.requests[i]).path != (
        #[trigger] t.requests[j]).path
    &&& forall|i: int, j: int|
        0 <= i < j < t.outputs.len() ==> #[trigger] t.outputs[i] != #[trigger] t.outputs[j]
    &&& forall|i: int, j: int|
        0 <= i < j < t.backups.len() ==> #[trigger] t.backups[i] != #[trigger] t.backups[j]
    &&& forall|i: int, j: int|
        0 <= i < t.requests.len() && 0 <= j < t.outputs.len() ==> (#[trigger] t.requests[i]).path
            != #[trigger] t.outputs[j]
    &&& forall|i: int, j: int|
        0 <= i < t.requests.len() && 0 <= j < t.backups.len() ==> (#[trigger] t.requests[i]).path
            != #[trigger] t.backups[j]
    &&& forall|i: int, j: int|
        0 <= i < t.outputs.len() && 0 <= j < t.backups.len() ==> #[trigger] t.outputs[i]
            != #[trigger] t.backups[j]
}

/// The file `k` holds its original.
pub open spec fn has_original(t: TransactionView, files: Files, k: int) -> bool {
    holds(files, t.requests[k].path, t.requests[k].original)
}

/// The file `k` holds its replacement.
pub open spec fn has_replacement(t: TransactionView, files: Files, k: int) -> bool {
    holds(files, t.requests[k].path, t.requests[k].replacement)
}

/// The backup of the file `k` holds its original.
pub open spec fn has_backup(t: TransactionView, files: Files, k: int) -> bool {
    k < t.backups.len() && holds(files, t.backups[k], t.requests[k].original)
}

/// The temporary files for the file `k` are there.
pub open spec fn has_temporaries(t: TransactionView, files: Files, k: int) -> bool {
    &&& k < t.outputs.len() ==> holds(files, t.outputs[k], t.requests[k].replacement)
    &&& k < t.backups.len() ==> holds(files, t.backups[k], t.requests[k].original)
}

/// No temporary file for the file `k` is there.
pub open spec fn without_temporaries(t: TransactionView, files: Files, k: int) -> bool {
    &&& k < t.outputs.len() ==> !files.dom().contains(t.outputs[k])
    &&& k < t.backups.len() ==> !files.dom().contains(t.backups[k])
}

/// The file `k` was replaced, and can be restored.
pub open spec fn is_replaced(t: TransactionView, files: Files, k: int) -> bool {
    &&& has_replacement(t, files, k)
    &&& has_backup(t, files, k)
    &&& !files.dom().contains(t.outputs[k])
}

/// The file `k` was rolled back: it holds its original, and nothing of it is
/// left beside it; or, with an error, its original is in its backup.
pub open spec fn is_rolled_back(t: TransactionView, files: Files, k: int) -> bool {
    &&& !files.dom().contains(t.outputs[k])
    &&& (has_original(t, files, k) && !files.dom().contains(t.backups[k])) || (has_backup(
        t,
        files,
        k,
    ) && t.errors.len() > 0)
}

/// The file `k` was not replaced, and its temporary files are there.
pub open spec fn is_waiting(t: TransactionView, files: Files, k: int) -> bool {
    has_original(t, files, k) && has_temporaries(t, files, k)
}

/// The file `k` was not replaced, and nothing of it is left beside it.
pub open spec fn is_dropped(t: TransactionView, files: Files, k: int, tidy: bool) -> bool {
    has_original(t, files, k) && (tidy ==> without_temporaries(t, files, k))
}

/// The file `k` was replaced for good.
pub open spec fn is_done(t: TransactionView, files: Files, k: int) -> bool {
    has_replacement(t, files, k) && !files.dom().contains(t.outputs[k])
}

/// The file `k` and its temporary files are none of those that were edited from
/// outside.
pub open spec fn clear(t: TransactionView, touched: Set<Seq<char>>, k: int) -> bool {
    &&& !touched.contains(t.requests[k].path)
    &&& k < t.outputs.len() ==> !touched.contains(t.outputs[k])
    &&& k < t.backups.len() ==> !touched.contains(t.backups[k])
}

/// The files of a transaction and its temporary files are there.
pub open spec fn present(t: TransactionView, files: Files) -> bool {
    &&& forall|k: int|
        0 <= k < t.requests.len() ==> files.dom().contains((#[trigger] t.requests[k]).path)
    &&& forall|k: int| 0 <= k < t.outputs.len() ==> files.dom().contains(#[trigger] t.outputs[k])
    &&& forall|k: int| 0 <= k < t.backups.len() ==> files.dom().contains(#[trigger] t.backups[k])
}

/// A transaction that is being staged.
pub open spec fn is_staging(t: TransactionView) -> bool {
    t.phase is StageInspect || t.phase is StageOutput || t.phase is StageBackup
}

/// The files that were not edited from outside are as the phase of a
/// transaction says; `touched` are the others. With `tidy`, no removal
/// of a temporary file has failed.
pub open spec fn in_keeping(
    t: TransactionView,
    files: Files,
    tidy: bool,
    touched: Set<Seq<char>>,
) -> bool {
    let n = t.requests.len() as int;
    match t.phase {
        Phase::StageInspect => all_waiting(t, files, touched) && present(t, files),
        Phase::StageOutput(tries) => all_waiting(t, files, touched) && present(t, files),
        Phase::StageBackup(tries) => all_waiting(t, files, touched) && present(t, files),
        Phase::Staged => all_waiting(t, files, touched),
        Phase::CommitInspect(at) => half_committed(t, files, touched),
        Phase::CommitReplace(at) => half_committed(t, files, touched),
        Phase::CommitSync(at) => half_committed(t, files, touched),
        Phase::RestoreInspect(at) => half_restored(t, files, at + 1, touched),
        Phase::RestoreReplace(at) => half_restored(t, files, at + 1, touched),
        Phase::RestoreSync(at) => half_restored(t, files, at as int, touched),
        Phase::DropOutput(at) => half_dropped(t, files, at as int, tidy, touched) && (clear(
            t,
            touched,
            at as int,
        ) ==> is_waiting(t, files, at as int)),
        Phase::DropBackup(at) => half_dropped(t, files, at as int, tidy, touched) && (clear(
            t,
            touched,
            at as int,
        ) ==> has_original(t, files, at as int) && (tidy ==> !files.dom().contains(
            t.outputs[at as int],
        ))),
        Phase::CleanRemove(at) => all_done(t, files, touched) && without_backups(t, files, at as int, tidy, touched),
        Phase::CleanSync(at) => all_done(t, files, touched) && without_backups(t, files, at + 1, tidy, touched),
        Phase::Finished => if t.fault is None && t.committed == n {
            all_done(t, files, touched) && without_backups(t, files, n, tidy, touched)
        } else {
            half_dropped(t, files, n, tidy, touched)
        },
    }
}

/// No file was replaced.
pub open spec fn all_waiting(t: TransactionView, files: Files, touched: Set<Seq<char>>) -> bool {
    forall|k: int|
        0 <= k < t.requests.len() && clear(t, touched, k) ==> #[trigger] is_waiting(t, files, k)
}

/// The files that were committed are replaced, the others wait.
pub open spec fn half_committed(
    t: TransactionView,
    files: Files,
    touched: Set<Seq<char>>,
) -> bool {
    &&& forall|k: int| 0 <= k < t.committed && clear(t, touched, k) ==> #[trigger] is_replaced(t, files, k)
    &&& forall|k: int|
        t.committed <= k < t.requests.len() && clear(t, touched, k) ==> #[trigger] is_waiting(t, files, k)
}

/// The committed files from `from` on were rolled back.
pub open spec fn half_restored(
    t: TransactionView,
    files: Files,
    from: int,
    touched: Set<Seq<char>>,
) -> bool {
    &&& forall|k: int|
        0 <= k < from && k < t.committed && clear(t, touched, k) ==> #[trigger] is_replaced(t, files, k)
    &&& forall|k: int| from <= k < t.committed && clear(t, touched, k) ==> #[trigger] is_rolled_back(t, files, k)
    &&& forall|k: int|
        t.committed <= k < t.requests.len() && clear(t, touched, k) ==> #[trigger] is_waiting(t, files, k)
}

/// The committed files were rolled back, and the temporary files of the others
/// were removed up to `at`.
pub open spec fn half_dropped(
    t: TransactionView,
    files: Files,
    at: int,
    tidy: bool,
    touched: Set<Seq<char>>,
) -> bool {
    &&& forall|k: int| 0 <= k < t.committed && clear(t, touched, k) ==> #[trigger] is_rolled_back(t, files, k)
    &&& forall|k: int|
        t.committed <= k < at && k < t.requests.len() && clear(t, touched, k) ==> #[trigger] is_dropped(t, files, k, tidy)
    &&& forall|k: int|
        at < k < t.requests.len() && t.committed <= k && clear(t, touched, k) ==> #[trigger] is_waiting(t, files, k)
}

/// All files were replaced for good.
pub open spec fn all_done(
    t: TransactionView,
    files: Files,
    touched: Set<Seq<char>>,
) -> bool {
    forall|k: int| 0 <= k < t.requests.len() && clear(t, touched, k) ==> #[trigger] is_done(t, files, k)
}

/// The backups before `at` were removed.
pub open spec fn without_backups(
    t: TransactionView,
    files: Files,
    at: int,
    tidy: bool,
    touched: Set<Seq<char>>,
) -> bool {
    tidy ==> forall|k: int|
        0 <= k < at && k < t.backups.len() && clear(t, touched, k) ==> !files.dom().contains(
            #[trigger] t.backups[k],
        )
}

/// The files are as a transaction that is under way keeps them, but for the
/// files `touched` that were edited from outside.
pub open spec fn kept(
    t: TransactionView,
    files: Files,
    tidy: bool,
    touched: Set<Seq<char>>,
) -> bool {
    transaction::sound(t) && apart(t) && in_keeping(t, files, tidy, touched)
}

/// Nothing that a transaction looks at at `k` changed.
proof fn lemma_create(
    t: TransactionView,
    u: TransactionView,
    files: Files,
    path: Seq<char>,
    text: Seq<char>,
    backup: bool,
    touched: Set<Seq<char>>,
)
    requires
        transaction::sound(t),
        apart(t),
        forall|k: int| 0 <= k < t.requests.len() && clear(t, touched, k) ==> #[trigger] is_waiting(t, files, k),
        present(t, files),
        !files.dom().contains(path),
        u.requests == t.requests,
        t.outputs.len() <= t.requests.len(),
        t.backups.len() <= t.outputs.len(),
        backup ==> u.outputs == t.outputs && u.backups == t.backups.push(path)
            && t.backups.len() < t.requests.len() && text
            == t.requests[t.backups.len() as int].original,
        !backup ==> u.backups == t.backups && u.outputs == t.outputs.push(path)
            && t.outputs.len() < t.requests.len() && text
            == t.requests[t.outputs.len() as int].replacement,
    ensures
        apart(u),
        present(u, files.insert(path, text)),
        forall|k: int|
            0 <= k < u.requests.len() && clear(u, touched, k) ==> #[trigger] is_waiting(u, files.insert(path, text), k),
{
    let after = files.insert(path, text);
    assert forall|k: int| 0 <= k < u.requests.len() && clear(u, touched, k) implies #[trigger] is_waiting(u, after, k) by {
        assert(is_waiting(t, files, k));
        assert(files.dom().contains(t.requests[k].path));
        if k < t.outputs.len() {
            assert(files.dom().contains(t.outputs[k]));
            assert(u.outputs[k] == t.outputs[k]);
        }
        if k < t.backups.len() {
            assert(files.dom().contains(t.backups[k]));
            assert(u.backups[k] == t.backups[k]);
        }
    }
}

proof fn lemma_staging(
    t: TransactionView,
    reply: ReplyView,
    files: Files,
    tidy: bool,
    touched: Set<Seq<char>>,
)
    requires
        kept(t, files, tidy, touched),
        truthful(transaction::action_of(t), reply, files),
        t.phase is StageInspect || t.phase is StageOutput || t.phase is StageBackup,
    ensures
        kept(
            transaction::step(t, reply),
            performed(transaction::action_of(t), reply, files),
            tidy,
            touched,
        ),
{
    let u = transaction::step(t, reply);
    let after = performed(transaction::action_of(t), reply, files);
    let at = t.backups.len() as int;
    transaction::lemma_sound_step(t, reply);
    if u.phase is DropOutput || u.phase is Finished {
        // It could not be staged.
        assert(after == files);
        assert forall|k: int| 0 <= k < t.requests.len() && clear(u, touched, k) implies #[trigger] is_waiting(
            u,
            after,
            k,
        ) by {
            assert(is_waiting(t, files, k));
        }
        assert forall|k: int| 0 <= k < u.requests.len() && u.outputs.len() == 0 && clear(u, touched, k) implies #[trigger] is_dropped(u, after, k, tidy) by {
            assert(is_waiting(u, after, k));
        }
    } else {
        match t.phase {
            Phase::StageInspect => {
                assert forall|k: int| 0 <= k < t.requests.len() && clear(u, touched, k) implies #[trigger] is_waiting(
                    u,
                    after,
                    k,
                ) by {
                    assert(is_waiting(t, files, k));
                }
            },
            Phase::StageOutput(tries) => {
                if reply is Done {
                    let path = transaction::temporary_path(t.requests[at].path, t.process, "output"@, t.next_id);
                    lemma_create(t, u, files, path, t.requests[at].replacement, false, touched);
                } else {
                    assert forall|k: int| 0 <= k < t.requests.len() && clear(u, touched, k) implies #[trigger] is_waiting(
                        u,
                        after,
                        k,
                    ) by {
                        assert(is_waiting(t, files, k));
                    }
                }
            },
            Phase::StageBackup(tries) => {
                if reply is Done {
                    let path = transaction::temporary_path(t.requests[at].path, t.process, "backup"@, t.next_id);
                    lemma_create(t, u, files, path, t.requests[at].original, true, touched);
                } else {
                    assert forall|k: int| 0 <= k < t.requests.len() && clear(u, touched, k) implies #[trigger] is_waiting(
                        u,
                        after,
                        k,
                    ) by {
                        assert(is_waiting(t, files, k));
                    }
                }
            },
            _ => {},
        }
    }
}

proof fn lemma_committing(
    t: TransactionView,
    reply: ReplyView,
    files: Files,
    tidy: bool,
    touched: Set<Seq<char>>,
)
    requires
        kept(t, files, tidy, touched),
        truthful(transaction::action_of(t), reply, files),
        t.phase is CommitInspect || t.phase is CommitReplace || t.phase is CommitSync,
    ensures
        kept(
            transaction::step(t, reply),
            performed(transaction::action_of(t), reply, files),
            tidy,
            touched,
        ),
{
    let u = transaction::step(t, reply);
    let after = performed(transaction::action_of(t), reply, files);
    transaction::lemma_sound_step(t, reply);
    assert forall|k: int| 0 <= k < t.committed && clear(u, touched, k) implies #[trigger] is_replaced(u, after, k) by {
        assert(is_replaced(t, files, k));
        match t.phase {
            Phase::CommitReplace(at) => {
                assert(t.requests[k].path != t.requests[at as int].path);
                assert(t.requests[k].path != t.outputs[at as int]);
                assert(t.backups[k] != t.requests[at as int].path);
                assert(t.backups[k] != t.outputs[at as int]);
                assert(t.outputs[k] != t.requests[at as int].path);
            },
            _ => {},
        }
    }
    assert forall|k: int| u.committed <= k < t.requests.len() && clear(u, touched, k) implies #[trigger] is_waiting(
        u,
        after,
        k,
    ) by {
        assert(is_waiting(t, files, k));
        match t.phase {
            Phase::CommitReplace(at) => {
                if reply is Done {
                    assert(t.requests[k].path != t.requests[at as int].path);
                    assert(t.requests[k].path != t.outputs[at as int]);
                    assert(t.backups[k] != t.requests[at as int].path);
                    assert(t.backups[k] != t.outputs[at as int]);
                    assert(t.outputs[k] != t.requests[at as int].path);
                    assert(t.outputs[k] != t.outputs[at as int]);
                }
            },
            _ => {},
        }
    }
    match t.phase {
        Phase::CommitReplace(at) => {
            if reply is Done {
                assert(t.requests[at as int].path != t.outputs[at as int]);
                assert(t.requests[at as int].path != t.backups[at as int]);
                assert(t.outputs[at as int] != t.backups[at as int]);
                if clear(t, touched, at as int) {
                    assert(is_waiting(t, files, at as int));
                    assert(is_replaced(u, after, at as int));
                }
            }
        },
        _ => {},
    }
    match u.phase {
        Phase::CleanRemove(at) => {
            assert forall|k: int| 0 <= k < u.requests.len() && clear(u, touched, k) implies #[trigger] is_done(
                u,
                after,
                k,
            ) by {
                assert(is_replaced(u, after, k));
            }
        },
        Phase::DropOutput(at) => {
            if clear(u, touched, at as int) {
                assert(is_waiting(u, after, at as int));
            }
        },
        _ => {},
    }
}

proof fn lemma_restoring(
    t: TransactionView,
    reply: ReplyView,
    files: Files,
    tidy: bool,
    touched: Set<Seq<char>>,
)
    requires
        kept(t, files, tidy, touched),
        truthful(transaction::action_of(t), reply, files),
        t.phase is RestoreInspect || t.phase is RestoreReplace || t.phase is RestoreSync,
    ensures
        kept(
            transaction::step(t, reply),
            performed(transaction::action_of(t), reply, files),
            tidy,
            touched,
        ),
{
    let u = transaction::step(t, reply);
    let after = performed(transaction::action_of(t), reply, files);
    transaction::lemma_sound_step(t, reply);
    let at: int = match t.phase {
        Phase::RestoreInspect(at) => at as int,
        Phase::RestoreReplace(at) => at as int,
        Phase::RestoreSync(at) => at as int,
        _ => 0,
    };
    let moved = t.phase is RestoreReplace && reply is Done;
    assert forall|k: int| 0 <= k < t.requests.len() && k != at && moved implies {
        &&& (#[trigger] t.requests[k]).path != t.requests[at].path
        &&& t.requests[k].path != t.backups[at]
        &&& t.backups[k] != t.requests[at].path
        &&& t.backups[k] != t.backups[at]
        &&& t.outputs[k] != t.requests[at].path
        &&& t.outputs[k] != t.backups[at]
    } by {
        if k < at {
            assert(t.backups[k] != t.backups[at]);
        } else {
            assert(t.backups[at] != t.backups[k]);
        }
        assert(t.requests[at].path != t.backups[k]);
        assert(t.requests[at].path != t.outputs[k]);
    }
    assert forall|k: int| 0 <= k < at && clear(u, touched, k) implies #[trigger] is_replaced(u, after, k) by {
        assert(is_replaced(t, files, k));
        assert(t.requests[k].path == t.requests[k].path);
    }
    assert forall|k: int| at < k < t.committed && clear(u, touched, k) implies #[trigger] is_rolled_back(
        u,
        after,
        k,
    ) by {
        assert(is_rolled_back(t, files, k));
        assert(t.requests[k].path == t.requests[k].path);
    }
    assert forall|k: int| t.committed <= k < t.requests.len() && clear(u, touched, k) implies #[trigger] is_waiting(
        u,
        after,
        k,
    ) by {
        assert(is_waiting(t, files, k));
        assert(t.requests[k].path == t.requests[k].path);
    }
    if clear(t, touched, at) {
        if t.phase is RestoreSync {
            assert(is_rolled_back(t, files, at));
            assert(is_rolled_back(u, after, at));
        } else {
            assert(is_replaced(t, files, at));
            if moved {
                assert(t.requests[at].path != t.backups[at]);
                assert(t.requests[at].path != t.outputs[at]);
                assert(t.outputs[at] != t.backups[at]);
                assert(is_rolled_back(u, after, at));
            } else if u.phase is RestoreReplace {
                assert(is_replaced(u, after, at));
            } else {
                assert(is_rolled_back(u, after, at));
            }
        }
    }
    match u.phase {
        Phase::DropOutput(from) => {
            if clear(u, touched, from as int) {
                assert(is_waiting(u, after, from as int));
            }
        },
        _ => {},
    }
}

proof fn lemma_dropping(
    t: TransactionView,
    reply: ReplyView,
    files: Files,
    tidy: bool,
    touched: Set<Seq<char>>,
)
    requires
        kept(t, files, tidy, touched),
        t.phase is DropOutput || t.phase is DropBackup,
        tidy ==> reply is Done,
    ensures
        kept(
            transaction::step(t, reply),
            performed(transaction::action_of(t), reply, files),
            tidy,
            touched,
        ),
{
    let u = transaction::step(t, reply);
    let after = performed(transaction::action_of(t), reply, files);
    transaction::lemma_sound_step(t, reply);
    let at: int = match t.phase {
        Phase::DropOutput(at) => at as int,
        Phase::DropBackup(at) => at as int,
        _ => 0,
    };
    let gone = if t.phase is DropOutput {
        t.outputs[at]
    } else {
        t.backups[at]
    };
    assert forall|k: int| 0 <= k < t.requests.len() implies (#[trigger] t.requests[k]).path
        != gone by {}
    assert forall|k: int| 0 <= k < t.outputs.len() && k != at implies #[trigger] t.outputs[k]
        != gone by {
        if k < at {
            assert(t.phase is DropOutput ==> t.outputs[k] != t.outputs[at]);
        } else {
            assert(t.phase is DropOutput ==> t.outputs[at] != t.outputs[k]);
        }
    }
    assert forall|k: int| 0 <= k < t.backups.len() && k != at implies #[trigger] t.backups[k]
        != gone by {
        if k < at {
            assert(t.phase is DropBackup ==> t.backups[k] != t.backups[at]);
        } else {
            assert(t.phase is DropBackup ==> t.backups[at] != t.backups[k]);
        }
    }
    assert forall|k: int| 0 <= k < t.committed && clear(u, touched, k) implies #[trigger] is_rolled_back(u, after, k) by {
        assert(is_rolled_back(t, files, k));
        assert(t.requests[k].path != gone);
        assert(t.backups[k] != gone);
    }
    assert forall|k: int| t.committed <= k < at && clear(u, touched, k) implies #[trigger] is_dropped(
        u,
        after,
        k,
        tidy,
    ) by {
        assert(is_dropped(t, files, k, tidy));
        assert(t.requests[k].path != gone);
    }
    assert forall|k: int| at < k < t.requests.len() && clear(u, touched, k) implies #[trigger] is_waiting(u, after, k) by {
        assert(is_waiting(t, files, k));
        assert(t.requests[k].path != gone);
        if k < t.outputs.len() {
            assert(t.outputs[k] != gone);
        }
        if k < t.backups.len() {
            assert(t.backups[k] != gone);
        }
    }
    assert(t.requests[at].path != gone);
    if !(u.phase is DropBackup) {
        if clear(u, touched, at) {
            assert(is_dropped(u, after, at, tidy));
        }
        if u.phase is Finished {
            assert forall|k: int| at < k < u.requests.len() && clear(u, touched, k) implies #[trigger] is_dropped(
                u,
                after,
                k,
                tidy,
            ) by {
                assert(is_waiting(u, after, k));
            }
        }
    }
}

proof fn lemma_cleaning(
    t: TransactionView,
    reply: ReplyView,
    files: Files,
    tidy: bool,
    touched: Set<Seq<char>>,
)
    requires
        kept(t, files, tidy, touched),
        t.phase is CleanRemove || t.phase is CleanSync,
        tidy && t.phase is CleanRemove ==> reply is Done,
    ensures
        kept(
            transaction::step(t, reply),
            performed(transaction::action_of(t), reply, files),
            tidy,
            touched,
        ),
{
    let u = transaction::step(t, reply);
    let after = performed(transaction::action_of(t), reply, files);
    transaction::lemma_sound_step(t, reply);
    assert forall|k: int| 0 <= k < u.requests.len() && clear(u, touched, k) implies #[trigger] is_done(u, after, k) by {
        assert(is_done(t, files, k));
        match t.phase {
            Phase::CleanRemove(at) => {
                assert(t.requests[k].path != t.backups[at as int]);
            },
            _ => {},
        }
    }
}

/// Whatever the outcome of the next operation is, the files that were not edited
/// from outside stay as the transaction keeps them.
pub proof fn law_every_step_keeps_the_files(
    t: TransactionView,
    reply: ReplyView,
    files: Files,
    tidy: bool,
    touched: Set<Seq<char>>,
)
    requires
        kept(t, files, tidy, touched),
        truthful(transaction::action_of(t), reply, files),
        tidy && transaction::action_of(t) is Remove ==> reply is Done,
    ensures
        kept(
            transaction::step(t, reply),
            performed(transaction::action_of(t), reply, files),
            tidy,
            touched,
        ),
{
    match t.phase {
        Phase::StageInspect => lemma_staging(t, reply, files, tidy, touched),
        Phase::StageOutput(tries) => lemma_staging(t, reply, files, tidy, touched),
        Phase::StageBackup(tries) => lemma_staging(t, reply, files, tidy, touched),
        Phase::Staged => {},
        Phase::CommitInspect(at) => lemma_committing(t, reply, files, tidy, touched),
        Phase::CommitReplace(at) => lemma_committing(t, reply, files, tidy, touched),
        Phase::CommitSync(at) => lemma_committing(t, reply, files, tidy, touched),
        Phase::RestoreInspect(at) => lemma_restoring(t, reply, files, tidy, touched),
        Phase::RestoreReplace(at) => lemma_restoring(t, reply, files, tidy, touched),
        Phase::RestoreSync(at) => lemma_restoring(t, reply, files, tidy, touched),
        Phase::CleanRemove(at) => lemma_cleaning(t, reply, files, tidy, touched),
        Phase::CleanSync(at) => lemma_cleaning(t, reply, files, tidy, touched),
        Phase::DropOutput(at) => lemma_dropping(t, reply, files, tidy, touched),
        Phase::DropBackup(at) => lemma_dropping(t, reply, files, tidy, touched),
        Phase::Finished => {},
    }
}

/// Files that are changed, created or removed from outside between two
/// operations take nothing from what the transaction keeps of the others. While
/// it is staged its files stay in their places, whatever they hold.
pub proof fn law_outside_edits_leave_the_other_files(
    t: TransactionView,
    files: Files,
    edited: Files,
    tidy: bool,
    touched: Set<Seq<char>>,
    paths: Set<Seq<char>>,
)
    requires
        kept(t, files, tidy, touched),
        forall|path: Seq<char>|
            !paths.contains(path) ==> (#[trigger] edited.dom().contains(path)
                <==> files.dom().contains(path)) && (files.dom().contains(path) ==> edited[path]
                == files[path]),
        is_staging(t) ==> present(t, edited),
    ensures
        kept(t, edited, tidy, touched.union(paths)),
{
    let all = touched.union(paths);
    assert forall|k: int| 0 <= k < t.requests.len() && clear(t, all, k) implies clear(t, touched, k)
        && same_files(t, files, edited, k) by {}
    lemma_same_waiting(t, files, edited, tidy, touched, all);
}

/// The file `k` and its temporary files are the same.
spec fn same_files(t: TransactionView, files: Files, edited: Files, k: int) -> bool {
    &&& same_file(files, edited, t.requests[k].path)
    &&& k < t.outputs.len() ==> same_file(files, edited, t.outputs[k])
    &&& k < t.backups.len() ==> same_file(files, edited, t.backups[k])
}

spec fn same_file(files: Files, edited: Files, path: Seq<char>) -> bool {
    (edited.dom().contains(path) <==> files.dom().contains(path)) && (files.dom().contains(path)
        ==> edited[path] == files[path])
}

proof fn lemma_same_waiting(
    t: TransactionView,
    files: Files,
    edited: Files,
    tidy: bool,
    touched: Set<Seq<char>>,
    all: Set<Seq<char>>,
)
    requires
        kept(t, files, tidy, touched),
        forall|k: int|
            0 <= k < t.requests.len() && clear(t, all, k) ==> #[trigger] clear(t, touched, k)
                && same_files(t, files, edited, k),
        is_staging(t) ==> present(t, edited),
    ensures
        kept(t, edited, tidy, all),
{
    assert forall|k: int|
        0 <= k < t.requests.len() && clear(t, all, k) && is_waiting(t, files, k) implies
        #[trigger] is_waiting(t, edited, k) by {
        assert(clear(t, touched, k));
    }
    assert forall|k: int|
        0 <= k < t.requests.len() && clear(t, all, k) && is_replaced(t, files, k) && k
            < t.outputs.len() implies #[trigger] is_replaced(t, edited, k) by {
        assert(clear(t, touched, k));
    }
    assert forall|k: int|
        0 <= k < t.requests.len() && clear(t, all, k) && is_rolled_back(t, files, k) && k
            < t.outputs.len() && k < t.backups.len() implies #[trigger] is_rolled_back(
        t,
        edited,
        k,
    ) by {
        assert(clear(t, touched, k));
    }
    assert forall|k: int|
        0 <= k < t.requests.len() && clear(t, all, k) && is_dropped(t, files, k, tidy) implies
        #[trigger] is_dropped(t, edited, k, tidy) by {
        assert(clear(t, touched, k));
    }
    assert forall|k: int|
        0 <= k < t.requests.len() && clear(t, all, k) && is_done(t, files, k) && k
            < t.outputs.len() implies #[trigger] is_done(t, edited, k) by {
        assert(clear(t, touched, k));
    }
    assert forall|k: int| 0 <= k < t.requests.len() && clear(t, all, k) && k < t.backups.len()
        && !files.dom().contains(t.backups[k]) implies !edited.dom().contains(
        #[trigger] t.backups[k],
    ) by {
        assert(clear(t, touched, k));
    }
    match t.phase {
        Phase::DropOutput(at) => {
            if clear(t, all, at as int) {
                assert(clear(t, touched, at as int));
                assert(is_waiting(t, edited, at as int));
            }
            assert(half_dropped(t, edited, at as int, tidy, all));
        },
        Phase::DropBackup(at) => {
            if clear(t, all, at as int) {
                assert(clear(t, touched, at as int));
            }
            assert(half_dropped(t, edited, at as int, tidy, all));
        },
        Phase::CleanRemove(at) => {
            assert(all_done(t, edited, all));
            assert(without_backups(t, edited, at as int, tidy, all));
        },
        Phase::CleanSync(at) => {
            assert(all_done(t, edited, all));
            assert(without_backups(t, edited, at + 1, tidy, all));
        },
        Phase::Finished => {
            if t.fault is None && t.committed == t.requests.len() {
                assert(all_done(t, edited, all));
                assert(without_backups(t, edited, t.requests.len() as int, tidy, all));
            } else {
                assert(half_dropped(t, edited, t.requests.len() as int, tidy, all));
            }
        },
        _ => {
            assert(in_keeping(t, edited, tidy, all));
        },
    }
}

/// A file that no longer holds its original is not replaced, and one that no
/// longer holds its replacement is not restored over: the transaction fails, or
/// reports that it could not restore the file, and leaves the file alone.
pub proof fn law_concurrent_changes_are_rejected(
    t: TransactionView,
    at: usize,
    found: InspectionView,
    files: Files,
)
    requires
        transaction::sound(t),
        at < t.requests.len(),
        found.contents matches Ok(text) && (t.phase == Phase::CommitInspect(at) && text
            != t.requests[at as int].original || t.phase == Phase::RestoreInspect(at) && text
            != t.requests[at as int].replacement),
    ensures
        ({
            let reply = ReplyView::Inspected(found);
            let u = transaction::step(t, reply);
            &&& performed(transaction::action_of(t), reply, files) == files
            &&& !(u.phase is CommitReplace) && u.phase != Phase::RestoreReplace(at)
            &&& u.fault is Some
            &&& t.phase is RestoreInspect ==> u.errors.len() > 0
        }),
{
}

/// A new transaction on different files that hold their originals keeps them.
pub proof fn law_a_new_transaction_keeps_the_files(
    requests: Seq<RequestView>,
    process: u64,
    next_id: u64,
    files: Files,
)
    requires
        requests.len() <= usize::MAX,
        forall|i: int, j: int|
            0 <= i < j < requests.len() ==> (#[trigger] requests[i]).path != (
            #[trigger] requests[j]).path,
        forall|k: int|
            0 <= k < requests.len() ==> holds(
                files,
                (#[trigger] requests[k]).path,
                requests[k].original,
            ),
    ensures
        kept(transaction::opened(requests, process, next_id), files, true, Set::empty()),
{
}

/// A staged transaction keeps the files when it is committed, and when it is
/// given up.
pub proof fn law_staged_transactions_keep_the_files(
    t: TransactionView,
    files: Files,
    tidy: bool,
    touched: Set<Seq<char>>,
)
    requires
        kept(t, files, tidy, touched),
        t.phase == Phase::Staged,
    ensures
        kept(transaction::committing(t), files, tidy, touched),
        kept(transaction::abandoned(t), files, tidy, touched),
{
    let u = transaction::committing(t);
    let v = transaction::abandoned(t);
    assert forall|k: int| 0 <= k < t.requests.len() && clear(u, touched, k) implies #[trigger] is_waiting(u, files, k) by {
        assert(is_waiting(t, files, k));
    }
    assert forall|k: int| 0 <= k < t.requests.len() && clear(v, touched, k) implies #[trigger] is_waiting(v, files, k) by {
        assert(is_waiting(t, files, k));
    }
    if t.requests.len() > 0 && clear(v, touched, 0) {
        assert(is_waiting(v, files, 0));
    }
}

/// Until every file was replaced, no original is lost: where nothing was edited
/// from outside it is in its file or in its backup.
pub proof fn law_originals_are_not_lost(
    t: TransactionView,
    files: Files,
    tidy: bool,
    touched: Set<Seq<char>>,
    k: int,
)
    requires
        kept(t, files, tidy, touched),
        0 <= k < t.requests.len(),
        clear(t, touched, k),
        t.committed < t.requests.len() || t.fault is Some,
    ensures
        has_original(t, files, k) || has_backup(t, files, k),
{
    match t.phase {
        Phase::StageInspect => assert(is_waiting(t, files, k)),
        Phase::StageOutput(tries) => assert(is_waiting(t, files, k)),
        Phase::StageBackup(tries) => assert(is_waiting(t, files, k)),
        Phase::Staged => assert(is_waiting(t, files, k)),
        _ => {
            if k < t.committed {
                assert(is_replaced(t, files, k) || is_rolled_back(t, files, k));
            } else {
                assert(is_waiting(t, files, k) || is_dropped(t, files, k, tidy) || has_original(
                    t,
                    files,
                    k,
                ));
            }
        },
    }
}

/// A transaction that was committed has replaced every file that was not edited
/// from outside, and where no removal failed nothing is left beside them.
pub proof fn law_committed_files_are_replaced(
    t: TransactionView,
    files: Files,
    tidy: bool,
    touched: Set<Seq<char>>,
    k: int,
)
    requires
        kept(t, files, tidy, touched),
        t.phase == Phase::Finished,
        t.fault is None,
        t.committed == t.requests.len(),
        t.outputs.len() == t.backups.len() == t.requests.len(),
        0 <= k < t.requests.len(),
        clear(t, touched, k),
    ensures
        has_replacement(t, files, k),
        tidy ==> without_temporaries(t, files, k),
{
    assert(is_done(t, files, k));
}

/// A transaction that failed, and was rolled back without an error, has left
/// every file as it was that was not edited from outside; where no removal failed nothing is left beside them.
pub proof fn law_failed_transactions_change_nothing(
    t: TransactionView,
    files: Files,
    tidy: bool,
    touched: Set<Seq<char>>,
    k: int,
)
    requires
        kept(t, files, tidy, touched),
        t.phase == Phase::Finished,
        t.fault is Some,
        t.errors.len() == 0,
        0 <= k < t.requests.len(),
        clear(t, touched, k),
    ensures
        has_original(t, files, k),
        tidy && k >= t.committed ==> without_temporaries(t, files, k),
        k < t.committed ==> without_temporaries(t, files, k),
{
    if k < t.committed {
        assert(is_rolled_back(t, files, k));
    } else {
        assert(is_dropped(t, files, k, tidy));
    }
}

} // verus!
