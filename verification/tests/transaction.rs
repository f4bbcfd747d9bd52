use bbtidy::{
    Action, Fault, FaultKind, Inspection, Phase, Reply, Transaction, WriteRequest,
};
use bbtidy::inputs::{FormattedInput, plan_writes};
use bbtidy::transaction::{parent_of, validate_source};
use std::collections::BTreeMap;

struct Stored {
    contents: String,
    regular: bool,
    readonly: bool,
    mode: u32,
}

fn fault(kind: FaultKind, message: &str) -> Fault {
    Fault { kind, message: message.to_owned() }
}

fn stored(contents: &str) -> Stored {
    Stored { contents: contents.to_owned(), regular: true, readonly: false, mode: 0o644 }
}

/// A directory tree held in memory, with the failures that a test asks for.
#[derive(Default)]
struct Disk {
    files: BTreeMap<String, Stored>,
    replacements: usize,
    fail_replacements: Vec<usize>,
    syncs: usize,
    fail_sync: Option<usize>,
    concurrent_edit: Option<(String, String)>,
    locked: Option<String>,
}

impl Disk {
    fn write(&mut self, name: &str, contents: &str) -> String {
        let path = format!("work/{name}");
        self.files.insert(path.clone(), stored(contents));
        path
    }

    fn read(&self, path: &str) -> &str {
        &self.files[path].contents
    }

    fn artifacts(&self) -> Vec<String> {
        self.files.keys().filter(|path| path.contains(".bbtidy.")).cloned().collect()
    }

    fn inspect(&self, path: &str) -> Inspection {
        match self.files.get(path) {
            None => Inspection {
                failure: Some(fault(FaultKind::NotFound, "no such file")),
                regular: false,
                readonly: false,
                contents: Err(fault(FaultKind::NotFound, "no such file")),
            },
            Some(file) => Inspection {
                failure: None,
                regular: file.regular,
                readonly: file.readonly,
                contents: Ok(file.contents.clone()),
            },
        }
    }

    fn perform(&mut self, action: &Action) -> Reply {
        match action {
            Action::Inspect { path } => Reply::Inspected(self.inspect(path)),
            Action::Create { path, contents, like } => {
                if self.files.contains_key(path) {
                    return Reply::Exists;
                }
                if let Some(directory) = &self.locked {
                    if *directory == parent_of(path) {
                        return Reply::Failed(fault(FaultKind::PermissionDenied, "locked"));
                    }
                }
                let mode = self.files[like].mode;
                let mut file = stored(contents);
                file.mode = mode;
                self.files.insert(path.clone(), file);
                Reply::Done
            }
            Action::Replace { from, to } => {
                self.replacements += 1;
                if self.fail_replacements.contains(&self.replacements) {
                    return Reply::Failed(fault(
                        FaultKind::PermissionDenied,
                        "injected replacement failure",
                    ));
                }
                let file = self.files.remove(from).unwrap();
                self.files.insert(to.clone(), file);
                if let Some((path, contents)) = self.concurrent_edit.take() {
                    self.files.insert(path, stored(&contents));
                }
                Reply::Done
            }
            Action::Sync { .. } => {
                self.syncs += 1;
                if self.fail_sync == Some(self.syncs) {
                    return Reply::Failed(fault(FaultKind::Other, "injected sync failure"));
                }
                Reply::Done
            }
            Action::Remove { path } => match self.files.remove(path) {
                Some(_) => Reply::Done,
                None => Reply::Failed(fault(FaultKind::NotFound, "no such file")),
            },
            Action::Idle => Reply::Done,
        }
    }

    fn run(&mut self, transaction: &mut Transaction) {
        while transaction.phase() != Phase::Staged && transaction.phase() != Phase::Finished {
            let action = transaction.next();
            let reply = self.perform(&action);
            transaction.reply(&reply);
        }
    }

    fn stage(&mut self, requests: &Vec<WriteRequest>) -> Result<Transaction, Fault> {
        let mut transaction = Transaction::stage(requests, 7, 0);
        self.run(&mut transaction);
        if transaction.phase() == Phase::Staged {
            Ok(transaction)
        } else {
            Err(transaction.result().unwrap_err())
        }
    }

    fn commit(&mut self, mut transaction: Transaction) -> Result<(), Fault> {
        transaction.commit();
        self.run(&mut transaction);
        transaction.result()
    }
}

fn request(path: &str) -> WriteRequest {
    WriteRequest {
        path: path.to_owned(),
        original: "A=\"a\"\n".to_owned(),
        replacement: "A = \"a\"\n".to_owned(),
    }
}

fn pair(disk: &mut Disk) -> (String, String) {
    (disk.write("a.bb", "A=\"a\"\n"), disk.write("b.bb", "A=\"a\"\n"))
}

fn staged(result: Result<Transaction, Fault>) -> Transaction {
    match result {
        Ok(transaction) => transaction,
        Err(error) => panic!("staging failed: {}", error.message),
    }
}

#[test]
fn commits_multiple_files_and_removes_all_staging_files() {
    let mut disk = Disk::default();
    let (a, b) = pair(&mut disk);
    let transaction = staged(disk.stage(&vec![request(&a), request(&b)]));
    assert!(disk.commit(transaction).is_ok());
    for path in [&a, &b] {
        assert_eq!(disk.read(path), "A = \"a\"\n");
    }
    assert!(disk.artifacts().is_empty());
}

#[test]
fn dropping_uncommitted_transaction_cleans_its_files() {
    let mut disk = Disk::default();
    let (a, b) = pair(&mut disk);
    let mut transaction = staged(disk.stage(&vec![request(&a), request(&b)]));
    assert_eq!(disk.artifacts().len(), 4);
    transaction.abandon();
    disk.run(&mut transaction);
    assert!(disk.artifacts().is_empty());
    assert_eq!(disk.read(&a), "A=\"a\"\n");
}

#[test]
fn late_staging_io_error_cleans_earlier_files() {
    let mut disk = Disk::default();
    let a = disk.write("a.bb", "A=\"a\"\n");
    let absent = "work/absent.bb";
    assert!(disk.stage(&vec![request(&a), request(absent)]).is_err());
    assert!(disk.artifacts().is_empty());
    assert_eq!(disk.read(&a), "A=\"a\"\n");
}

#[test]
fn read_only_source_fails_before_commit_and_cleans_staging() {
    let mut disk = Disk::default();
    let (a, b) = pair(&mut disk);
    disk.files.get_mut(&b).unwrap().readonly = true;
    let result = disk.stage(&vec![request(&a), request(&b)]);
    assert_eq!(result.err().unwrap().kind, FaultKind::PermissionDenied);
    assert!(disk.artifacts().is_empty());
    assert_eq!(disk.read(&a), "A=\"a\"\n");
}

#[test]
fn source_changed_before_staging_is_preserved() {
    let mut disk = Disk::default();
    let a = disk.write("a.bb", "concurrent edit\n");
    assert!(disk.stage(&vec![request(&a)]).is_err());
    assert_eq!(disk.read(&a), "concurrent edit\n");
    assert!(disk.artifacts().is_empty());
}

#[test]
fn later_concurrent_change_rolls_back_earlier_replacement() {
    let mut disk = Disk::default();
    let (a, b) = pair(&mut disk);
    let transaction = staged(disk.stage(&vec![request(&a), request(&b)]));
    disk.write("b.bb", "concurrent edit\n");
    assert!(disk.commit(transaction).is_err());
    assert_eq!(disk.read(&a), "A=\"a\"\n");
    assert_eq!(disk.read(&b), "concurrent edit\n");
    assert!(disk.artifacts().is_empty());
}

#[test]
fn transaction_rolls_back_when_a_later_file_changes() {
    let mut disk = Disk::default();
    let first_path = disk.write("a.bb", "A=\"a\"\n");
    let second_path = disk.write("b.bb", "B=\"b\"\n");
    let inputs = vec![
        FormattedInput {
            label: first_path.clone(),
            path: Some(first_path.clone()),
            original: "A=\"a\"\n".to_owned(),
            formatted: "A = \"a\"\n".to_owned(),
        },
        FormattedInput {
            label: second_path.clone(),
            path: Some(second_path.clone()),
            original: "B=\"b\"\n".to_owned(),
            formatted: "B = \"b\"\n".to_owned(),
        },
    ];

    let transaction = staged(disk.stage(&plan_writes(&inputs)));
    disk.write("b.bb", "B=\"concurrent\"\n");
    assert!(disk.commit(transaction).is_err());
    assert_eq!(disk.read(&first_path), "A=\"a\"\n");
    assert_eq!(disk.read(&second_path), "B=\"concurrent\"\n");
    assert!(disk.artifacts().is_empty());
}

#[test]
fn replacement_failure_rolls_back_without_partial_output() {
    let mut disk = Disk::default();
    let (a, b) = pair(&mut disk);
    let transaction = staged(disk.stage(&vec![request(&a), request(&b)]));
    disk.fail_replacements = vec![2];
    assert!(disk.commit(transaction).is_err());
    for path in [&a, &b] {
        assert_eq!(disk.read(path), "A=\"a\"\n");
    }
    assert_eq!(disk.replacements, 3);
    assert!(disk.artifacts().is_empty());
}

#[test]
fn sync_failure_after_replacement_rolls_back() {
    let mut disk = Disk::default();
    let (a, b) = pair(&mut disk);
    let transaction = staged(disk.stage(&vec![request(&a), request(&b)]));
    disk.fail_sync = Some(1);
    assert!(disk.commit(transaction).is_err());
    for path in [&a, &b] {
        assert_eq!(disk.read(path), "A=\"a\"\n");
    }
    assert!(disk.artifacts().is_empty());
}

#[test]
fn failed_restore_keeps_current_file_and_reports_recovery_backup() {
    let mut disk = Disk::default();
    let (a, b) = pair(&mut disk);
    let transaction = staged(disk.stage(&vec![request(&a), request(&b)]));
    disk.fail_replacements = vec![2, 3];
    let error = disk.commit(transaction).unwrap_err().message;
    assert_eq!(disk.read(&a), "A = \"a\"\n");
    assert_eq!(disk.read(&b), "A=\"a\"\n");
    let artifacts = disk.artifacts();
    assert_eq!(artifacts.len(), 1);
    assert_eq!(disk.read(&artifacts[0]), "A=\"a\"\n");
    assert!(error.contains(&format!("original preserved at {}", artifacts[0])));
    assert_eq!(
        error,
        format!(
            "injected replacement failure; rollback failed: could not restore {a}: injected replacement failure; original preserved at {}",
            artifacts[0]
        )
    );
}

#[test]
fn rollback_preserves_edits_made_after_our_replacement() {
    let mut disk = Disk::default();
    let (a, b) = pair(&mut disk);
    let transaction = staged(disk.stage(&vec![request(&a), request(&b)]));
    disk.fail_replacements = vec![2];
    disk.concurrent_edit = Some((a.clone(), "new user edit\n".to_owned()));
    let error = disk.commit(transaction).unwrap_err().message;
    assert_eq!(disk.read(&a), "new user edit\n");
    assert!(error.contains("original preserved at"));
    assert_eq!(disk.artifacts().len(), 1);
}

#[test]
fn cleanup_failure_reports_that_changes_were_committed() {
    let mut disk = Disk::default();
    let (a, b) = pair(&mut disk);
    let transaction = staged(disk.stage(&vec![request(&a), request(&b)]));
    disk.fail_sync = Some(3);
    let error = disk.commit(transaction).unwrap_err().message;
    assert!(error.contains("all source changes were committed"));
    for path in [&a, &b] {
        assert_eq!(disk.read(path), "A = \"a\"\n");
    }
    assert!(disk.artifacts().is_empty());
}

#[test]
fn preserves_unix_permissions_on_commit_and_rollback() {
    for fail in [false, true] {
        let mut disk = Disk::default();
        let (a, b) = pair(&mut disk);
        disk.files.get_mut(&a).unwrap().mode = 0o750;
        let transaction = staged(disk.stage(&vec![request(&a), request(&b)]));
        disk.fail_replacements = if fail { vec![2] } else { vec![] };
        assert_eq!(disk.commit(transaction).is_err(), fail);
        assert_eq!(disk.files[&a].mode & 0o777, 0o750);
        assert!(disk.artifacts().is_empty());
    }
}

#[test]
fn unwritable_directory_leaves_all_sources_unchanged() {
    let mut disk = Disk::default();
    let a = disk.write("a.bb", "A=\"a\"\n");
    let b = disk.write("locked/b.bb", "A=\"a\"\n");
    disk.locked = Some(parent_of(&b));
    let result = disk.stage(&vec![request(&a), request(&b)]);
    assert_eq!(result.err().unwrap().kind, FaultKind::PermissionDenied);
    assert_eq!(disk.read(&a), "A=\"a\"\n");
    assert!(disk.artifacts().is_empty());
}

#[test]
fn symlink_introduced_before_commit_is_not_replaced_or_followed() {
    let mut disk = Disk::default();
    let (a, b) = pair(&mut disk);
    let target = disk.write("target.bb", "untouched\n");
    let transaction = staged(disk.stage(&vec![request(&a), request(&b)]));
    disk.files.get_mut(&b).unwrap().regular = false;
    assert!(disk.commit(transaction).is_err());
    assert!(!disk.files[&b].regular);
    assert_eq!(disk.read(&target), "untouched\n");
    assert_eq!(disk.read(&a), "A=\"a\"\n");
    assert!(disk.artifacts().is_empty());
}

#[test]
fn a_taken_staging_name_is_passed_over() {
    let mut disk = Disk::default();
    let a = disk.write("a.bb", "A=\"a\"\n");
    disk.write(".a.bb.bbtidy.7.output.0.tmp", "left behind\n");
    let transaction = staged(disk.stage(&vec![request(&a)]));
    assert_eq!(transaction.next_id(), 3);
    assert!(disk.commit(transaction).is_ok());
    assert_eq!(disk.read(&a), "A = \"a\"\n");
    assert_eq!(disk.artifacts(), ["work/.a.bb.bbtidy.7.output.0.tmp"]);
}

#[test]
fn staging_gives_up_when_every_name_is_taken() {
    let mut disk = Disk::default();
    let a = disk.write("a.bb", "A=\"a\"\n");
    for id in 0..100 {
        disk.write(&format!(".a.bb.bbtidy.7.output.{id}.tmp"), "left behind\n");
    }
    let error = disk.stage(&vec![request(&a)]).err().unwrap();
    assert_eq!(error.kind, FaultKind::AlreadyExists);
    assert_eq!(error.message, "could not allocate a temporary output file");
}

#[test]
fn a_path_without_a_file_name_cannot_be_staged() {
    let mut disk = Disk::default();
    disk.files.insert("work/..".to_owned(), stored("A=\"a\"\n"));
    let error = disk.stage(&vec![request("work/..")]).err().unwrap();
    assert_eq!(error.kind, FaultKind::InvalidInput);
    assert_eq!(error.message, "path has no file name");
}

#[test]
fn unchanged_files_are_never_touched() {
    let mut disk = Disk::default();
    let same = WriteRequest {
        path: "work/absent.bb".to_owned(),
        original: "A = \"a\"\n".to_owned(),
        replacement: "A = \"a\"\n".to_owned(),
    };
    let transaction = staged(disk.stage(&vec![same]));
    assert!(disk.commit(transaction).is_ok());
    assert!(disk.files.is_empty());
    assert_eq!(disk.syncs, 0);
}

#[test]
fn source_validation_reports_each_fault() {
    let good = Inspection {
        failure: None,
        regular: true,
        readonly: false,
        contents: Ok("text".to_owned()),
    };
    assert!(validate_source("a.bb", &good, "text").is_ok());
    let changed = validate_source("a.bb", &good, "other").unwrap_err();
    assert_eq!(changed.kind, FaultKind::Interrupted);
    assert_eq!(
        changed.message,
        "a.bb changed while writes were being prepared or committed"
    );
    let linked = Inspection { failure: None, regular: false, readonly: true, contents: Ok(String::new()) };
    let error = validate_source("a.bb", &linked, "").unwrap_err();
    assert_eq!(error.kind, FaultKind::InvalidInput);
    assert_eq!(
        error.message,
        "a.bb is not a regular file; refusing to replace directories or symbolic links"
    );
    let locked = Inspection { failure: None, regular: true, readonly: true, contents: Ok(String::new()) };
    let error = validate_source("a.bb", &locked, "").unwrap_err();
    assert_eq!(error.kind, FaultKind::PermissionDenied);
    assert_eq!(error.message, "a.bb is read-only; refusing to replace it");
}

#[test]
fn a_bare_file_name_lies_in_the_current_directory() {
    assert_eq!(parent_of("a.bb"), ".");
    assert_eq!(parent_of("work/a.bb"), "work");
    assert_eq!(parent_of("/a.bb"), "/");
}
