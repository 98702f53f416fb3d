use oxio::entities::Item;
use oxio::levenshtein::distance;
use oxio::store::{create_item, get_all_items, index};
use oxio::strutil::trim_newline;
use oxio::sync::{
    can_sync_cache, gitignore_covers_index, gitignore_with_index, init_sync_empty,
    init_sync_existing, perform_sync, rebase_history, CanSync, MigrationPlan, RebaseOutcome,
    RepoProbe,
};
use oxio::result::{Error, OxError, OxResult};

fn item(group: &str, name: &str, value: &str) -> Item {
    create_item(&Vec::new(), group, name, value).item
}

struct CollaboratorFault(String);

impl OxError for CollaboratorFault {
    fn as_ox_error(&self) -> Error {
        Error::new(&self.0)
    }
}

#[test]
fn collaborator_results_convert() {
    let ok: Result<u32, CollaboratorFault> = Ok(7);
    assert_eq!(ok.into_ox_result().unwrap(), 7);
    let err: Result<u32, CollaboratorFault> = Err(CollaboratorFault("lost".to_string()));
    match err.into_ox_result() {
        Err(Error::Io(m)) => assert_eq!(m, "lost"),
        _ => panic!("expected an io error"),
    }
}

#[test]
fn distance_of_equal_strings_is_zero() {
    assert_eq!(distance("", ""), 0);
    assert_eq!(distance("kitten", "kitten"), 0);
    assert_eq!(distance("grüße", "grüße"), 0);
}

#[test]
fn distance_from_empty_is_length() {
    assert_eq!(distance("", "abc"), 3);
    assert_eq!(distance("abcd", ""), 4);
    // over code points, not bytes
    assert_eq!(distance("", "äöü"), 3);
}

#[test]
fn distance_kitten_sitting() {
    assert_eq!(distance("kitten", "sitting"), 3);
    assert_eq!(distance("sitting", "kitten"), 3);
}

#[test]
fn distance_more_cases() {
    assert_eq!(distance("flaw", "lawn"), 2);
    assert_eq!(distance("cat", "car"), 1);
    assert_eq!(distance("a", "b"), 1);
}

#[test]
fn classify_sync_states() {
    assert!(matches!(
        can_sync_cache(false, &RepoProbe::Opened { remotes: 1 }),
        CanSync::NoLocalCache
    ));
    match can_sync_cache(true, &RepoProbe::NoRepository("no repo here".to_string())) {
        CanSync::NotConfigured(reason) => assert_eq!(reason, "no repo here"),
        _ => panic!("expected not-configured"),
    }
    assert!(matches!(
        can_sync_cache(true, &RepoProbe::Opened { remotes: 0 }),
        CanSync::NoRemotes
    ));
    assert!(matches!(
        can_sync_cache(true, &RepoProbe::Opened { remotes: 2 }),
        CanSync::Yes
    ));
}

#[test]
fn init_empty_refuses_existing_root() {
    assert!(matches!(init_sync_empty(true, "ssh://r"), Err(Error::AlreadyExists)));
    let plan = init_sync_empty(false, "ssh://r").unwrap();
    assert_eq!(plan.url, "ssh://r");
}

#[test]
fn sync_convergence_scenario() {
    // remote holds commit A plus a newer commit; the local clone holds A and
    // a local commit B created by the dirty working tree.
    let local = vec![10];
    let remote = vec![10, 30];
    let (local2, remote2, pushed) =
        perform_sync(local, remote, true, 20, &RebaseOutcome::Completed).unwrap();
    assert_eq!(local2, vec![10, 30, 20]);
    assert_eq!(remote2, vec![10, 30, 20]);
    assert!(pushed);
}

#[test]
fn sync_pushes_unpushed_commits_on_clean_tree() {
    // commit B already exists and the tree is clean: the remote must still
    // end with B rebased onto its newer commit.
    let local = vec![10, 20];
    let remote = vec![10, 30];
    let (local2, remote2, pushed) =
        perform_sync(local, remote, false, 99, &RebaseOutcome::Completed).unwrap();
    assert_eq!(local2, vec![10, 30, 20]);
    assert_eq!(remote2, vec![10, 30, 20]);
    assert!(pushed);
}

#[test]
fn sync_in_step_does_not_push() {
    let local = vec![10, 30];
    let remote = vec![10, 30];
    let (local2, remote2, pushed) =
        perform_sync(local, remote, false, 99, &RebaseOutcome::Completed).unwrap();
    assert_eq!(local2, vec![10, 30]);
    assert_eq!(remote2, vec![10, 30]);
    assert!(!pushed);
}

#[test]
fn sync_conflict_is_fatal_and_never_pushes() {
    let local = vec![10, 20];
    let remote = vec![10, 30];
    let outcome = RebaseOutcome::Conflict("overlapping edit".to_string());
    match perform_sync(local, remote, true, 40, &outcome) {
        Err(Error::RebaseConflict(m)) => assert_eq!(m, "overlapping edit"),
        _ => panic!("expected a rebase conflict"),
    }
}

#[test]
fn rebase_replays_past_common_prefix() {
    assert_eq!(rebase_history(&vec![1, 2, 3], &vec![1, 4]), vec![1, 4, 2, 3]);
    assert_eq!(rebase_history(&vec![1, 2], &vec![1, 2]), vec![1, 2]);
    assert_eq!(rebase_history(&vec![], &vec![5]), vec![5]);
}

#[test]
fn migration_branches() {
    let no_items: Vec<Item> = Vec::new();
    assert!(matches!(
        init_sync_existing(false, false, &no_items, "u"),
        Ok(MigrationPlan::CloneFresh(_))
    ));
    assert!(matches!(
        init_sync_existing(true, true, &no_items, "u"),
        Err(Error::AlreadyInitialized)
    ));
    assert!(matches!(
        init_sync_existing(true, false, &no_items, "u"),
        Ok(MigrationPlan::DropAndClone(_))
    ));
}

#[test]
fn migration_preserves_all_items() {
    let items = vec![item("a", "x", "1"), item("b", "y", "2"), item("c", "z", "3")];
    let plan = init_sync_existing(true, false, &items, "ssh://remote").unwrap();
    let files = match plan {
        MigrationPlan::Migrate { url, files } => {
            assert_eq!(url, "ssh://remote");
            files
        }
        _ => panic!("expected a migration"),
    };
    // every live item file is copied, once, in index order
    assert_eq!(files.len(), 3);
    for (f, it) in files.iter().zip(items.iter()) {
        assert_eq!(f, &it.filename);
    }
    // after the move, a rebuilt index lists the same items
    let idx = index(&items);
    let loaded = get_all_items(Some(idx.as_slice()), ".index").unwrap();
    assert_eq!(loaded.len(), 3);
    for (s, it) in loaded.iter().zip(items.iter()) {
        assert_eq!(s.group, it.group);
        assert_eq!(s.name, it.name);
        assert_eq!(s.filename, it.filename);
    }
}

#[test]
fn gitignore_idempotence() {
    assert!(gitignore_covers_index(".index"));
    assert!(gitignore_covers_index("target\n.index\nnotes.txt"));
    assert!(!gitignore_covers_index(""));
    assert!(!gitignore_covers_index("target\n.index-not-quite"));
    let covered = gitignore_with_index("target\n.index\n");
    assert_eq!(covered, "target\n.index\n");
    assert_eq!(gitignore_with_index(""), ".index\n");
    assert_eq!(gitignore_with_index("target\n"), "target\n.index\n");
    assert_eq!(gitignore_with_index("target"), "target\n.index\n");
    assert!(gitignore_covers_index(gitignore_with_index("target").as_str()));
}

#[test]
fn trim_newline_strips_one_terminator() {
    let mut s = "value\n".to_string();
    trim_newline(&mut s);
    assert_eq!(s, "value");
    let mut s = "value\r\n".to_string();
    trim_newline(&mut s);
    assert_eq!(s, "value");
    let mut s = "value".to_string();
    trim_newline(&mut s);
    assert_eq!(s, "value");
    let mut s = "keep\n\n".to_string();
    trim_newline(&mut s);
    assert_eq!(s, "keep\n");
}
