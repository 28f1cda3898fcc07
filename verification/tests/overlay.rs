use env_overlay::manager::{load_env_variables_from_env_files, EnvFile, EnvManager, FileStatus};
use env_overlay::table::EnvTable;

fn s(x: &str) -> String {
    x.to_string()
}

fn content(bytes: &[u8]) -> FileStatus {
    FileStatus::Content(bytes.to_vec())
}

fn table(pairs: &[(&str, &str)]) -> EnvTable {
    let mut t = EnvTable::new();
    for (k, v) in pairs {
        t.set(&s(k), &s(v));
    }
    t
}

fn file(path: &str, status: FileStatus) -> EnvFile {
    EnvFile { path: s(path), status }
}

#[test]
fn loads_a_fresh_variable_and_unload_removes_it() {
    let mut env = EnvTable::new();
    let mut mgr = EnvManager::new(EnvTable::new());
    let n = mgr.load_env_file(&mut env, &s("a.env"), &content(b"FOO=1\n"));
    assert_eq!(n.unwrap(), 1);
    assert_eq!(env.get(&s("FOO")), Some(s("1")));
    assert_eq!(mgr.get_variable_source(&s("FOO")), Some(s("a.env")));
    assert!(mgr.is_managed(&s("FOO")));
    assert!(mgr.is_tracked(&s("a.env")));
    mgr.unload_env_file(&mut env, &s("a.env"));
    assert_eq!(env.get(&s("FOO")), None);
    assert!(!mgr.is_managed(&s("FOO")));
    assert!(!mgr.is_tracked(&s("a.env")));
}

#[test]
fn unload_restores_exact_baseline_value() {
    let baseline = table(&[("PATH", "/usr/bin")]);
    let mut env = table(&[("PATH", "/usr/bin")]);
    let mut mgr = EnvManager::new(baseline);
    let n = mgr.load_env_file(&mut env, &s("b.env"), &content(b"PATH=/custom/bin\n"));
    assert_eq!(n.unwrap(), 1);
    assert_eq!(env.get(&s("PATH")), Some(s("/custom/bin")));
    mgr.unload_env_file(&mut env, &s("b.env"));
    assert_eq!(env.get(&s("PATH")), Some(s("/usr/bin")));
}

#[test]
fn loading_the_same_file_twice_is_idempotent() {
    let mut env = EnvTable::new();
    let mut mgr = EnvManager::new(EnvTable::new());
    let bytes = b"A=1\nB=2\n";
    let n1 = mgr.load_env_file(&mut env, &s("f.env"), &content(bytes)).unwrap();
    let a1 = env.get(&s("A"));
    let b1 = env.get(&s("B"));
    let n2 = mgr.load_env_file(&mut env, &s("f.env"), &content(bytes)).unwrap();
    assert_eq!(n1, n2);
    assert_eq!(env.get(&s("A")), a1);
    assert_eq!(env.get(&s("B")), b1);
    assert_eq!(mgr.get_variable_source(&s("A")), Some(s("f.env")));
    assert_eq!(mgr.get_variable_source(&s("B")), Some(s("f.env")));
    assert_eq!(mgr.env_var_count(), 2);
}

#[test]
fn first_listed_file_wins_conflicts() {
    let mut env = EnvTable::new();
    let mut mgr = EnvManager::new(EnvTable::new());
    let files = vec![
        file("one.env", content(b"X=1\nA=a\n")),
        file("two.env", content(b"X=2\nB=b\n")),
    ];
    let total = mgr.load_env_variables_from_env_files(&mut env, &files);
    assert_eq!(total, 3);
    assert_eq!(env.get(&s("X")), Some(s("1")));
    assert_eq!(mgr.get_variable_source(&s("X")), Some(s("one.env")));
    assert_eq!(env.get(&s("A")), Some(s("a")));
    assert_eq!(env.get(&s("B")), Some(s("b")));
    assert_eq!(mgr.get_variable_source(&s("B")), Some(s("two.env")));
}

#[test]
fn unload_keeps_an_outside_change() {
    let mut env = EnvTable::new();
    let mut mgr = EnvManager::new(EnvTable::new());
    mgr.load_env_file(&mut env, &s("f.env"), &content(b"X=v1\n")).unwrap();
    assert_eq!(env.get(&s("X")), Some(s("v1")));
    // something outside the manager changes X afterwards
    env.set(&s("X"), &s("v2"));
    mgr.unload_env_file(&mut env, &s("f.env"));
    assert_eq!(env.get(&s("X")), Some(s("v2")));
    assert!(!mgr.is_managed(&s("X")));
}

#[test]
fn fresh_cycle_supersedes_dropped_files() {
    let mut env = EnvTable::new();
    let mut mgr = EnvManager::new(EnvTable::new());
    let first = vec![
        file("one.env", content(b"ONLY1=a\nSHARED=s1\n")),
        file("two.env", content(b"SHARED=s2\nONLY2=b\n")),
    ];
    assert_eq!(mgr.load_env_variables_from_env_files(&mut env, &first), 3);
    assert_eq!(env.get(&s("SHARED")), Some(s("s1")));
    let second = vec![file("two.env", content(b"SHARED=s2\nONLY2=b\n"))];
    assert_eq!(mgr.load_env_variables_from_env_files(&mut env, &second), 2);
    assert_eq!(env.get(&s("ONLY1")), None);
    assert_eq!(env.get(&s("SHARED")), Some(s("s2")));
    assert_eq!(mgr.get_variable_source(&s("SHARED")), Some(s("two.env")));
    assert_eq!(env.get(&s("ONLY2")), Some(s("b")));
    assert!(!mgr.is_tracked(&s("one.env")));
    assert!(mgr.is_tracked(&s("two.env")));
}

#[test]
fn missing_file_is_no_error_and_releases_prior_contribution() {
    let mut env = EnvTable::new();
    let mut mgr = EnvManager::new(EnvTable::new());
    mgr.load_env_file(&mut env, &s("gone.env"), &content(b"FOO=1\n")).unwrap();
    assert_eq!(env.get(&s("FOO")), Some(s("1")));
    let n = mgr.load_env_file(&mut env, &s("gone.env"), &FileStatus::Missing);
    assert_eq!(n.unwrap(), 0);
    assert_eq!(env.get(&s("FOO")), None);
    assert!(!mgr.is_tracked(&s("gone.env")));
}

#[test]
fn unreadable_file_is_a_critical_error_and_changes_nothing() {
    let mut env = EnvTable::new();
    let mut mgr = EnvManager::new(EnvTable::new());
    mgr.load_env_file(&mut env, &s("ok.env"), &content(b"KEEP=1\n")).unwrap();
    let r = mgr.load_env_file(&mut env, &s("bad.env"), &FileStatus::Unreadable);
    let e = r.unwrap_err();
    assert_eq!(e.path, s("bad.env"));
    assert_eq!(env.get(&s("KEEP")), Some(s("1")));
    assert_eq!(mgr.env_var_count(), 1);
    assert!(!mgr.is_tracked(&s("bad.env")));
}

#[test]
fn malformed_lines_are_skipped_not_fatal() {
    let mut env = EnvTable::new();
    let mut mgr = EnvManager::new(EnvTable::new());
    let n = mgr.load_env_file(
        &mut env,
        &s("f.env"),
        &content(b"GOOD=1\nthis is not an assignment\nALSO=2\n"),
    );
    assert_eq!(n.unwrap(), 2);
    assert_eq!(env.get(&s("GOOD")), Some(s("1")));
    assert_eq!(env.get(&s("ALSO")), Some(s("2")));
}

#[test]
fn comments_and_blank_lines_contribute_nothing() {
    let mut env = EnvTable::new();
    let mut mgr = EnvManager::new(EnvTable::new());
    let n = mgr.load_env_file(&mut env, &s("f.env"), &content(b"# comment\n\nKEY=val\n"));
    assert_eq!(n.unwrap(), 1);
    assert_eq!(env.get(&s("KEY")), Some(s("val")));
}

#[test]
fn quoted_values_come_back_unquoted() {
    let mut env = EnvTable::new();
    let mut mgr = EnvManager::new(EnvTable::new());
    let n = mgr.load_env_file(&mut env, &s("f.env"), &content(b"Q=\"hello world\"\n"));
    assert_eq!(n.unwrap(), 1);
    assert_eq!(env.get(&s("Q")), Some(s("hello world")));
}

#[test]
fn first_definition_in_a_file_wins() {
    let mut env = EnvTable::new();
    let mut mgr = EnvManager::new(EnvTable::new());
    let n = mgr.load_env_file(&mut env, &s("f.env"), &content(b"DUP=1\nDUP=2\n"));
    assert_eq!(n.unwrap(), 1);
    assert_eq!(env.get(&s("DUP")), Some(s("1")));
}

#[test]
fn cleanup_returns_to_the_pre_manager_state() {
    let baseline = table(&[("HOME", "/root")]);
    let mut env = table(&[("HOME", "/root")]);
    let mut mgr = EnvManager::new(baseline);
    let files = vec![
        file("one.env", content(b"HOME=/tmp\nNEW=x\n")),
        file("two.env", content(b"OTHER=y\n")),
    ];
    assert_eq!(mgr.load_env_variables_from_env_files(&mut env, &files), 3);
    assert_eq!(env.get(&s("HOME")), Some(s("/tmp")));
    mgr.cleanup(&mut env);
    assert_eq!(env.get(&s("HOME")), Some(s("/root")));
    assert_eq!(env.get(&s("NEW")), None);
    assert_eq!(env.get(&s("OTHER")), None);
    assert_eq!(mgr.env_var_count(), 0);
    assert_eq!(mgr.env_file_count(), 0);
}

#[test]
fn reload_replaces_the_prior_contribution() {
    let mut env = EnvTable::new();
    let mut mgr = EnvManager::new(EnvTable::new());
    assert_eq!(
        mgr.load_env_file(&mut env, &s("f.env"), &content(b"A=1\nB=2\n")).unwrap(),
        2
    );
    let n = mgr.reload_env_file(&mut env, &s("f.env"), &content(b"A=9\n"));
    assert_eq!(n.unwrap(), 1);
    assert_eq!(env.get(&s("A")), Some(s("9")));
    assert_eq!(env.get(&s("B")), None);
    let vars = mgr.variables_from_file(&s("f.env"));
    assert_eq!(vars, vec![s("A")]);
}

#[test]
fn per_file_critical_errors_do_not_abort_a_batch() {
    let mut env = EnvTable::new();
    let mut mgr = EnvManager::new(EnvTable::new());
    let files = vec![
        file("bad.env", FileStatus::Unreadable),
        file("gone.env", FileStatus::Missing),
        file("ok.env", content(b"K=v\n")),
    ];
    let total = mgr.load_env_variables_from_env_files(&mut env, &files);
    assert_eq!(total, 1);
    assert_eq!(env.get(&s("K")), Some(s("v")));
    assert!(!mgr.is_tracked(&s("bad.env")));
    assert!(!mgr.is_tracked(&s("gone.env")));
    assert!(mgr.is_tracked(&s("ok.env")));
}

#[test]
fn an_empty_file_is_still_tracked() {
    let mut env = EnvTable::new();
    let mut mgr = EnvManager::new(EnvTable::new());
    let n = mgr.load_env_file(&mut env, &s("empty.env"), &content(b""));
    assert_eq!(n.unwrap(), 0);
    assert!(mgr.is_tracked(&s("empty.env")));
    assert_eq!(mgr.env_file_count(), 1);
    assert_eq!(mgr.env_var_count(), 0);
}

#[test]
fn merged_variables_lists_every_record() {
    let mut env = EnvTable::new();
    let mut mgr = EnvManager::new(EnvTable::new());
    let files = vec![
        file("one.env", content(b"A=1\n")),
        file("two.env", content(b"B=2\n")),
    ];
    mgr.load_env_variables_from_env_files(&mut env, &files);
    let mut merged = mgr.merged_variables();
    merged.sort();
    assert_eq!(
        merged,
        vec![
            (s("A"), s("one.env"), s("1")),
            (s("B"), s("two.env"), s("2")),
        ]
    );
}

#[test]
fn the_free_function_loads_a_batch() {
    let mut env = EnvTable::new();
    let mut mgr = EnvManager::new(EnvTable::new());
    let files = vec![file("one.env", content(b"FREE=1\n"))];
    let total = load_env_variables_from_env_files(&mut mgr, &mut env, &files);
    assert_eq!(total, 1);
    assert_eq!(env.get(&s("FREE")), Some(s("1")));
}

#[test]
fn baseline_is_never_refreshed() {
    let baseline = table(&[("KEY", "orig")]);
    let mut env = table(&[("KEY", "orig")]);
    let mut mgr = EnvManager::new(baseline);
    mgr.load_env_file(&mut env, &s("f.env"), &content(b"KEY=new1\n")).unwrap();
    mgr.load_env_file(&mut env, &s("f.env"), &content(b"KEY=new2\n")).unwrap();
    assert_eq!(env.get(&s("KEY")), Some(s("new2")));
    assert_eq!(mgr.baseline_value(&s("KEY")), Some(s("orig")));
    mgr.unload_env_file(&mut env, &s("f.env"));
    assert_eq!(env.get(&s("KEY")), Some(s("orig")));
}

#[test]
fn table_set_get_remove_and_pairs() {
    let mut t = EnvTable::new();
    t.set(&s("A"), &s("1"));
    t.set(&s("B"), &s("2"));
    t.set(&s("A"), &s("3"));
    assert_eq!(t.get(&s("A")), Some(s("3")));
    assert_eq!(t.get(&s("B")), Some(s("2")));
    let mut p = t.pairs();
    p.sort();
    assert_eq!(p, vec![(s("A"), s("3")), (s("B"), s("2"))]);
    t.remove(&s("A"));
    assert_eq!(t.get(&s("A")), None);
    assert_eq!(t.get(&s("B")), Some(s("2")));
}
