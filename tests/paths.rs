use myrmidon::paths::{is_valid_path, PathError, PathRegistry};
use myrmidon::supervisor::{ChildSpec, RestartPlan, RestartStrategy};

#[test]
fn register_and_whereis() {
    let mut p = PathRegistry::new();
    assert_eq!(p.register_path("/system/workers/w1".to_string(), 5), Ok(()));
    assert_eq!(p.whereis_path("/system/workers/w1"), Some(5));
    assert_eq!(p.whereis_path("/system/workers"), None);
    assert_eq!(p.register_path("/system/workers/w1".to_string(), 6), Ok(()));
    assert_eq!(p.whereis_path("/system/workers/w1"), Some(6));
}

#[test]
fn a_pid_has_one_path() {
    let mut p = PathRegistry::new();
    p.register_path("/a".to_string(), 1).unwrap();
    p.register_path("/b".to_string(), 1).unwrap();
    assert_eq!(p.whereis_path("/a"), None);
    assert_eq!(p.whereis_path("/b"), Some(1));
}

#[test]
fn malformed_paths_are_refused() {
    let mut p = PathRegistry::new();
    assert_eq!(p.register_path("".to_string(), 1), Err(PathError::InvalidPath));
    assert_eq!(p.register_path("/a//b".to_string(), 1), Err(PathError::InvalidPath));
    assert_eq!(p.register_path("/a/".to_string(), 1), Err(PathError::InvalidPath));
    assert!(is_valid_path("a/b"));
    assert!(!is_valid_path("/"));
}

#[test]
fn children_and_direct_children() {
    let mut p = PathRegistry::new();
    p.register_path("/sys/a".to_string(), 1).unwrap();
    p.register_path("/sys/a/x".to_string(), 2).unwrap();
    p.register_path("/sys/b".to_string(), 3).unwrap();
    p.register_path("/sysx".to_string(), 4).unwrap();
    p.register_path("/sys".to_string(), 5).unwrap();
    assert_eq!(
        p.list_children("/sys"),
        vec![("/sys/a".to_string(), 1), ("/sys/a/x".to_string(), 2), ("/sys/b".to_string(), 3)]
    );
    assert_eq!(
        p.list_children_direct("/sys"),
        vec![("/sys/a".to_string(), 1), ("/sys/b".to_string(), 3)]
    );
    assert_eq!(p.list_children("/sys/a/x"), vec![]);
}

#[test]
fn unregister_by_path_and_by_pid() {
    let mut p = PathRegistry::new();
    p.register_path("/a".to_string(), 1).unwrap();
    p.register_path("/b".to_string(), 2).unwrap();
    p.unregister_path("/a");
    assert_eq!(p.whereis_path("/a"), None);
    p.unregister_pid(2);
    assert_eq!(p.whereis_path("/b"), None);
    p.unregister_path("/missing");
}

#[test]
fn watchers_cover_the_prefix_and_below() {
    let mut p = PathRegistry::new();
    p.watch_path("/sys".to_string(), 10).unwrap();
    p.watch_path("/sys/a".to_string(), 11).unwrap();
    p.watch_path("/other".to_string(), 12).unwrap();
    assert_eq!(p.watch_path("bad/".to_string(), 13), Err(PathError::InvalidPath));
    assert_eq!(p.watchers_of("/sys/a/x"), vec![10, 11]);
    assert_eq!(p.watchers_of("/sys"), vec![10]);
}

#[test]
fn path_supervisor() {
    let mut p = PathRegistry::new();
    let spec = ChildSpec { factory: 3, strategy: RestartStrategy::RestartOne };
    assert_eq!(p.path_supervise("/svc", 1, spec), Err(PathError::NoSupervisor));
    p.create_path_supervisor("/svc".to_string()).unwrap();
    p.path_supervise("/svc", 1, spec).unwrap();
    p.path_supervise("/svc", 2, spec).unwrap();
    assert_eq!(p.path_supervisor_children("/svc"), vec![1, 2]);
    assert_eq!(p.path_supervisor_on_exit("/svc", 2), RestartPlan::RestartOne { factory: 3 });
    assert_eq!(p.path_supervisor_on_exit("/svc", 9), RestartPlan::Ignore);
    p.remove_path_supervisor("/svc");
    assert_eq!(p.path_supervisor_children("/svc"), Vec::<u64>::new());
}
