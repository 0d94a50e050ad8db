use sennit::state::{Backup, State};

#[test]
fn stale_lists_what_left_the_manifest() {
    let st = State {
        links: vec!["a".to_string(), "b".to_string()],
        ..Default::default()
    };
    assert_eq!(st.stale(&vec!["a".to_string()]), vec!["b".to_string()]);
    assert!(st
        .stale(&vec!["a".to_string(), "b".to_string()])
        .is_empty());
}

#[test]
fn stale_paths_are_compared_by_components() {
    let st = State {
        links: vec!["a/b".to_string()],
        ..Default::default()
    };
    assert!(st.stale(&vec!["a//b/".to_string()]).is_empty());
    assert_eq!(st.stale(&vec!["a/bc".to_string()]), vec!["a/b".to_string()]);
}

#[test]
fn a_fresh_record_is_empty() {
    let st = State::default();
    assert!(st.links.is_empty());
    assert!(st.backups.is_empty());
    assert!(st.hooks.is_empty());
}

#[test]
fn the_record_follows_the_home_directory() {
    assert_eq!(State::path("/h"), "/h/.local/state/sennit/state.json");
    assert_eq!(State::path("/h/"), "/h/.local/state/sennit/state.json");
}

#[test]
fn links_are_recorded_once() {
    let mut st = State::default();
    st.linked("a");
    st.linked("b/c");
    st.linked("b//c");
    assert_eq!(st.links, vec!["a".to_string(), "b/c".to_string()]);
    st.unlinked("./b/c");
    assert_eq!(st.links, vec!["a".to_string(), "b/c".to_string()]);
    st.unlinked("b/c/");
    assert_eq!(st.links, vec!["a".to_string()]);
}

fn kept(st: &State) -> Vec<(String, String)> {
    st.backups
        .iter()
        .map(|b| (b.dest.clone(), b.kept_at.clone()))
        .collect()
}

#[test]
fn backups_accumulate_until_they_are_restored() {
    let mut st = State {
        backups: vec![Backup {
            dest: "/h/a".to_string(),
            kept_at: "/h/a.sennit-backup".to_string(),
        }],
        ..Default::default()
    };
    st.moved("/h/b", "/h/b.sennit-backup");
    st.moved("/h/a", "/h/a.sennit-backup.1");
    assert_eq!(kept(&st).len(), 3);
    st.restored("/h/a");
    assert_eq!(
        kept(&st),
        vec![("/h/b".to_string(), "/h/b.sennit-backup".to_string())]
    );
}

#[test]
fn a_finished_run_records_the_current_links() {
    let mut st = State::default();
    st.linked("old");
    let mut hooks = sennit::table::Table::new();
    hooks.insert("h".to_string(), "f".to_string());
    st.finished(vec!["new".to_string()], hooks);
    assert_eq!(st.links, vec!["new".to_string()]);
    assert_eq!(st.hooks.get("h"), Some(&"f".to_string()));
}
