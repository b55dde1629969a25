use fim::app::{AddError, AppFIM};
use fim::path::{check_path, FsPath};
use fim::session::{classify, next_step, Classified, DirEventKind, LoopStep, ReadOutcome, IN_CREATE, IN_ISDIR};

fn p(s: &str) -> FsPath {
    FsPath::new(s.split('/').filter(|c| !c.is_empty()).map(|c| c.as_bytes().to_vec()).collect())
}

fn roots(app: &AppFIM) -> Vec<Vec<Vec<u8>>> {
    app.path_from_web.iter().map(|r| r.parts.clone()).collect()
}

#[test]
fn new_is_inactive_and_empty() {
    let app = AppFIM::new();
    assert!(!app.state);
    assert!(app.path_from_web.is_empty());
}

#[test]
fn nested_root_is_rejected() {
    let mut app = AppFIM::new();
    assert_eq!(app.add(p("/data")), Ok(()));
    assert_eq!(app.add(p("/data/sub")), Err(AddError::Nested));
    assert_eq!(roots(&app), vec![p("/data").parts]);
}

#[test]
fn ancestor_root_supersedes() {
    let mut app = AppFIM::new();
    assert_eq!(app.add(p("/data/sub")), Ok(()));
    assert_eq!(app.add(p("/other")), Ok(()));
    assert_eq!(app.add(p("/data")), Ok(()));
    assert_eq!(roots(&app), vec![p("/other").parts, p("/data").parts]);
}

#[test]
fn same_root_twice_is_kept_once() {
    let mut app = AppFIM::new();
    assert_eq!(app.add(p("/data")), Ok(()));
    assert_eq!(app.add(p("/data")), Ok(()));
    assert_eq!(roots(&app), vec![p("/data").parts]);
}

#[test]
fn sibling_with_common_prefix_is_not_nested() {
    let mut app = AppFIM::new();
    assert_eq!(app.add(p("/data")), Ok(()));
    assert_eq!(app.add(p("/database")), Ok(()));
    assert_eq!(roots(&app).len(), 2);
}

#[test]
fn roots_frozen_while_active() {
    let mut app = AppFIM::new();
    assert_eq!(app.add(p("/data")), Ok(()));
    assert!(app.start());
    assert!(!app.start());
    assert_eq!(app.add(p("/x")), Err(AddError::Active));
    assert!(!app.del(&p("/data")));
    assert_eq!(roots(&app), vec![p("/data").parts]);
    app.stop();
    assert!(!app.state);
    assert!(app.del(&p("/data")));
    assert!(app.path_from_web.is_empty());
}

#[test]
fn stop_halts_at_next_pause() {
    assert_eq!(next_step(ReadOutcome::NoData, true), LoopStep::Continue);
    assert_eq!(next_step(ReadOutcome::Events, false), LoopStep::Continue);
    assert_eq!(next_step(ReadOutcome::NoData, false), LoopStep::Stop);
    assert_eq!(next_step(ReadOutcome::Failed, true), LoopStep::Stop);
}

#[test]
fn admission_check_refuses_ancestor_of_cwd() {
    assert_eq!(check_path(&p("/home"), &p("/home/me/fim")), Err(()));
    assert_eq!(check_path(&p("/home/me/fim"), &p("/home/me/fim")), Err(()));
    assert_eq!(check_path(&p("/data"), &p("/home/me/fim")), Ok(()));
    assert_eq!(check_path(&p("/home/me/fim/data"), &p("/home/me/fim")), Ok(()));
}

#[test]
fn classify_masks() {
    assert_eq!(classify(IN_CREATE | IN_ISDIR), Some(Classified::Dir(DirEventKind::Create)));
    assert_eq!(classify(IN_CREATE | 0x1 | IN_ISDIR), None);
    assert_eq!(classify(0), None);
}

#[test]
fn path_join_and_prefix() {
    let a = p("/data");
    let b = a.join(&b"a.txt".to_vec());
    assert_eq!(b.parts, p("/data/a.txt").parts);
    assert!(b.starts_with(&a));
    assert!(!a.starts_with(&b));
    assert!(a.same(&p("/data")));
    assert_eq!(b.depth(), 2);
}
