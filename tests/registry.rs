use fim::path::FsPath;
use fim::registry::WatchRegistry;
use fim::session::{dispatch, Dispatch, IN_CREATE, IN_DELETE, IN_ISDIR, IN_MODIFY, IN_MOVED_FROM, IN_MOVED_TO};
use fim::store::EventKind;

fn p(s: &str) -> FsPath {
    FsPath::new(s.split('/').filter(|c| !c.is_empty()).map(|c| c.as_bytes().to_vec()).collect())
}

fn parts(path: &FsPath) -> Vec<Vec<u8>> {
    path.parts.clone()
}

fn walked() -> WatchRegistry {
    let mut reg = WatchRegistry::new();
    reg.watch_directory_recursive(vec![
        (p("/data"), Some(1)),
        (p("/data/x"), Some(2)),
        (p("/data/x/y"), Some(3)),
        (p("/data/gone"), None),
    ]);
    reg
}

#[test]
fn initial_walk_registers_each_directory_once() {
    let reg = walked();
    assert_eq!(reg.len(), 3);
    assert_eq!(parts(&reg.resolve(1).unwrap()), parts(&p("/data")));
    assert_eq!(parts(&reg.resolve(2).unwrap()), parts(&p("/data/x")));
    assert_eq!(parts(&reg.resolve(3).unwrap()), parts(&p("/data/x/y")));
    assert!(reg.resolve(4).is_none());
}

#[test]
fn record_replaces_descriptor_or_path() {
    let mut reg = walked();
    reg.record(2, p("/data/z"));
    assert_eq!(reg.len(), 3);
    assert_eq!(parts(&reg.resolve(2).unwrap()), parts(&p("/data/z")));
    reg.record(9, p("/data/z"));
    assert_eq!(reg.len(), 3);
    assert!(reg.resolve(2).is_none());
    assert_eq!(parts(&reg.resolve(9).unwrap()), parts(&p("/data/z")));
}

#[test]
fn delete_removes_only_that_directory() {
    let mut reg = walked();
    reg.dir_delete(&p("/data/x/y"));
    assert_eq!(reg.len(), 2);
    assert!(reg.resolve(3).is_none());
    assert!(reg.resolve(2).is_some());
}

#[test]
fn moved_from_removes_subtree() {
    let mut reg = walked();
    reg.dir_moved_from(&p("/data/x"));
    assert_eq!(reg.len(), 1);
    assert!(reg.resolve(1).is_some());
    assert!(reg.resolve(2).is_none());
    assert!(reg.resolve(3).is_none());
}

#[test]
fn create_dir_then_file_in_it() {
    let mut reg = walked();
    let sub = match dispatch(&mut reg, 1, Some(b"sub".to_vec()), IN_CREATE | IN_ISDIR) {
        Dispatch::Subscribe(path) => path,
        _ => panic!("a new directory is to be subscribed"),
    };
    assert_eq!(parts(&sub), parts(&p("/data/sub")));
    reg.watch_directory_recursive(vec![(sub, Some(7))]);
    assert_eq!(parts(&reg.resolve(7).unwrap()), parts(&p("/data/sub")));
    match dispatch(&mut reg, 7, Some(b"b.txt".to_vec()), IN_CREATE) {
        Dispatch::File(kind, path) => {
            assert_eq!(kind, EventKind::Create);
            assert_eq!(parts(&path), parts(&p("/data/sub/b.txt")));
        }
        _ => panic!("a file creation goes to the store"),
    }
}

#[test]
fn dispatch_directory_moves_and_deletes() {
    let mut reg = walked();
    match dispatch(&mut reg, 1, Some(b"x".to_vec()), IN_MOVED_FROM | IN_ISDIR) {
        Dispatch::Unwatched => {}
        _ => panic!("a directory moved out is unwatched"),
    }
    assert_eq!(reg.len(), 1);
    match dispatch(&mut reg, 1, Some(b"x".to_vec()), IN_MOVED_TO | IN_ISDIR) {
        Dispatch::Subscribe(path) => assert_eq!(parts(&path), parts(&p("/data/x"))),
        _ => panic!("a directory moved in is subscribed"),
    }
    reg.watch_directory_recursive(vec![(p("/data/x"), Some(2))]);
    match dispatch(&mut reg, 1, Some(b"x".to_vec()), IN_DELETE | IN_ISDIR) {
        Dispatch::Unwatched => {}
        _ => panic!("a deleted directory is unwatched"),
    }
    assert!(reg.resolve(2).is_none());
}

#[test]
fn dispatch_drops_unresolvable_and_unknown() {
    let mut reg = walked();
    assert!(matches!(dispatch(&mut reg, 42, Some(b"a".to_vec()), IN_MODIFY), Dispatch::Dropped));
    assert!(matches!(dispatch(&mut reg, 1, None, IN_MODIFY), Dispatch::Dropped));
    assert!(matches!(dispatch(&mut reg, 1, Some(b"a".to_vec()), 0x4), Dispatch::Dropped));
    assert_eq!(reg.len(), 3);
}

#[test]
fn dispatch_file_kinds() {
    let mut reg = walked();
    let cases = vec![
        (IN_MODIFY, EventKind::Modify),
        (IN_DELETE, EventKind::Delete),
        (IN_CREATE, EventKind::Create),
        (IN_MOVED_FROM, EventKind::MovedFrom),
        (IN_MOVED_TO, EventKind::MovedTo),
    ];
    for (mask, expected) in cases {
        match dispatch(&mut reg, 2, Some(b"f".to_vec()), mask) {
            Dispatch::File(kind, path) => {
                assert_eq!(kind, expected);
                assert_eq!(parts(&path), parts(&p("/data/x/f")));
            }
            _ => panic!("file events go to the store"),
        }
    }
}
