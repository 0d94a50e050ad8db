use sennit::hooks::{
    failed_hook, fingerprint, hook_dir, hook_failed, hook_step, is_due, marks, next_hook, run_all,
    run_count, Hook, HookStep, Outcome, Seen,
};
use sennit::table::Table;
use std::collections::hash_map::DefaultHasher;
use std::hash::{Hash, Hasher};

fn hook(watched: &[&str], run: &str) -> Hook {
    Hook {
        when_changed: watched.iter().map(|s| s.to_string()).collect(),
        run: run.to_string(),
        cwd: None,
    }
}

fn one(name: &str, h: Hook) -> Table<Hook> {
    let mut t = Table::new();
    t.insert(name.to_string(), h);
    t
}

fn seen(path: &str, modified: u64, size: u64) -> Seen {
    Seen {
        path: path.to_string(),
        depth: 0,
        modified,
        size,
    }
}

#[test]
fn missing_paths_do_not_panic() {
    let fp = fingerprint(&vec![]);
    assert!(!fp.is_empty());
    assert_eq!(fp.len(), 16);
}

#[test]
fn fingerprint_is_stable_for_unchanged_content() {
    let a = fingerprint(&vec![seen("a", 1700000000, 1)]);
    let b = fingerprint(&vec![seen("a", 1700000000, 1)]);
    assert_eq!(a, b);
}

#[test]
fn the_fingerprint_tells_changes_apart() {
    let base = fingerprint(&vec![seen("a", 1700000000, 1)]);
    assert_ne!(base, fingerprint(&vec![seen("a", 1700000001, 1)]));
    assert_ne!(base, fingerprint(&vec![seen("a", 1700000000, 2)]));
    assert_ne!(base, fingerprint(&vec![seen("b", 1700000000, 1)]));
    assert_ne!(base, fingerprint(&vec![]));
    assert!(base.chars().all(|c| c.is_ascii_hexdigit()));
}

#[test]
fn the_hash_is_that_of_the_standard_library() {
    let entries: Vec<(String, u64)> = vec![("a".to_string(), 5 ^ (3 << 20)), ("b".to_string(), 7)];
    let mut h = DefaultHasher::new();
    entries.hash(&mut h);
    let got = fingerprint(&vec![seen("b", 7, 0), seen("a", 5, 3)]);
    assert_eq!(got, format!("{:016x}", h.finish()));
}

#[test]
fn the_order_of_a_listing_does_not_count() {
    let a = fingerprint(&vec![seen("x", 1, 2), seen("y", 3, 4), seen("x", 0, 9)]);
    let b = fingerprint(&vec![seen("y", 3, 4), seen("x", 0, 9), seen("x", 1, 2)]);
    assert_eq!(a, b);
}

#[test]
fn files_too_deep_are_not_watched() {
    let mut deep = seen("a", 1, 1);
    deep.depth = 9;
    let mut edge = seen("b", 1, 1);
    edge.depth = 8;
    assert_eq!(
        marks(&vec![deep, edge]),
        vec![("b".to_string(), 1 ^ (1 << 20))]
    );
}

fn print() -> Vec<String> {
    vec!["f".to_string()]
}

fn recorded(t: Result<Table<String>, usize>) -> Table<String> {
    match t {
        Ok(t) => t,
        Err(i) => panic!("hook {i} failed"),
    }
}

#[test]
fn a_hook_without_watches_always_runs() {
    let hooks = one("always", hook(&[], "true"));
    let mut record = Table::new();
    record.insert("always".to_string(), "f".to_string());
    assert!(is_due(&hooks, 0, "f", &record));
    let record = recorded(run_all(&hooks, &print(), &record, &vec![Outcome::Succeeded]));
    assert!(is_due(&hooks, 0, "f", &record));
}

#[test]
fn a_watched_hook_is_skipped_when_nothing_changed() {
    let hooks = one("w", hook(&["watched"], "true"));
    assert!(is_due(&hooks, 0, "f", &Table::new()));
    let ran = vec![Outcome::Succeeded];
    let record = recorded(run_all(&hooks, &print(), &Table::new(), &ran));
    assert_eq!(record.get("w"), Some(&"f".to_string()));
    assert!(!is_due(&hooks, 0, "f", &record));
    assert!(is_due(&hooks, 0, "g", &record));
    assert_eq!(hook_step(&hooks, 0, "f", &record, false), HookStep::Skip);
    assert_eq!(hook_step(&hooks, 0, "g", &record, false), HookStep::Run);
    assert_eq!(hook_step(&hooks, 0, "g", &record, true), HookStep::Preview);
}

#[test]
fn a_failing_hook_is_an_error() {
    let hooks = one("boom", hook(&[], "exit 3"));
    match run_all(&hooks, &print(), &Table::new(), &vec![Outcome::Failed]) {
        Ok(_) => panic!("the hook failed"),
        Err(i) => {
            let said = hook_failed(hooks.key(i), hooks.value(i));
            assert_eq!(said, "hook `boom` failed: exit 3");
        }
    }
}

#[test]
fn the_first_failure_is_named() {
    let mut hooks = one("a", hook(&[], "true"));
    hooks.insert("b".to_string(), hook(&[], "false"));
    hooks.insert("c".to_string(), hook(&[], "true"));
    let (yes, no, skip) = (Outcome::Succeeded, Outcome::Failed, Outcome::Skipped);
    assert_eq!(next_hook(&hooks, &vec![]), Some(0));
    assert_eq!(next_hook(&hooks, &vec![yes]), Some(1));
    assert_eq!(next_hook(&hooks, &vec![yes, no]), None);
    assert_eq!(next_hook(&hooks, &vec![yes, skip]), Some(2));
    assert_eq!(next_hook(&hooks, &vec![yes, yes, yes]), None);
    assert_eq!(failed_hook(&vec![yes, no]), Some(1));
    assert_eq!(failed_hook(&vec![yes, skip]), None);
    assert_eq!(run_count(&vec![yes, skip, Outcome::Previewed]), 2);
    let prints = vec!["1".to_string(), "2".to_string()];
    let r = run_all(&hooks, &prints, &Table::new(), &vec![yes, no]);
    assert_eq!(r.err(), Some(1));
    let t = recorded(run_all(&hooks, &prints, &Table::new(), &vec![skip, yes]));
    assert_eq!(t.keys(), vec!["b".to_string()]);
}

#[test]
fn a_hook_runs_where_it_says() {
    let mut h = hook(&[], "true");
    assert_eq!(hook_dir("/repo", &h), "/repo");
    h.cwd = Some("sub".to_string());
    assert_eq!(hook_dir("/repo", &h), "/repo/sub");
}
