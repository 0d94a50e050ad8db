use sennit::table::Table;
use sennit::vars::{add_context, flatten, load_vars, Context, Source};

#[test]
fn flattens_nested_tables() {
    let toml_src = "[ui]\nbg = \"#111\"\n\n[normal]\nred = \"#f00\"\n";
    let value: toml::Value = toml::from_str(toml_src).unwrap();
    let mut out = Table::new();
    flatten(&value, String::new(), &mut out);
    assert_eq!(out.get("ui.bg").unwrap(), "#111");
    assert_eq!(out.get("normal.red").unwrap(), "#f00");
}

fn source(name: &str, text: &str) -> Source {
    Source {
        name: name.to_string(),
        text: text.to_string(),
    }
}

fn loaded(sources: Vec<Source>) -> Table<String> {
    match load_vars(&sources) {
        Ok(t) => t,
        Err(e) => panic!("{}: {}", e.name, e.cause),
    }
}

#[test]
fn values_that_are_no_strings_are_written_out() {
    let v = loaded(vec![source(
        "theme.toml",
        "size = 12\nratio = 1.5\non = true\nlist = [1, \"a\"]\nday = 2024-01-02\n\n[a.b]\nc = \"x\"\n",
    )]);
    assert_eq!(v.get("size").unwrap(), "12");
    assert_eq!(v.get("ratio").unwrap(), "1.5");
    assert_eq!(v.get("on").unwrap(), "true");
    assert_eq!(v.get("list").unwrap(), "[1, \"a\"]");
    assert_eq!(v.get("day").unwrap(), "2024-01-02");
    assert_eq!(v.get("a.b.c").unwrap(), "x");
    assert_eq!(v.len(), 6);
}

#[test]
fn a_later_file_counts() {
    let v = loaded(vec![
        source("theme.toml", "bg = \"1\"\nfg = \"1\"\n"),
        source("colors.toml", "bg = \"2\"\n"),
    ]);
    assert_eq!(v.get("bg").unwrap(), "2");
    assert_eq!(v.get("fg").unwrap(), "1");
}

#[test]
fn a_file_that_does_not_parse_is_named() {
    let r = load_vars(&vec![
        source("ok.toml", "a = 1\n"),
        source("bad.toml", "a = \n"),
    ]);
    match r {
        Ok(_) => panic!("parsed"),
        Err(e) => {
            assert_eq!(e.name, "bad.toml");
            assert!(!e.cause.to_string().is_empty());
        }
    }
    assert!(loaded(vec![]).is_empty());
}

#[test]
fn templates_see_the_machine() {
    let mut v = loaded(vec![source("theme.toml", "[sennit]\nos = \"mine\"\n")]);
    add_context(
        &mut v,
        &Context {
            os: "linux".to_string(),
            hostname: "box.example.org".to_string(),
            profiles: vec!["work".to_string(), "home".to_string()],
            env: vec![("EDITOR".to_string(), "vi".to_string())],
        },
    );
    assert_eq!(v.get("sennit.os").unwrap(), "linux");
    assert_eq!(v.get("sennit.hostname").unwrap(), "box");
    assert_eq!(v.get("sennit.profile").unwrap(), "work,home");
    assert_eq!(v.get("env.EDITOR").unwrap(), "vi");
}

#[test]
fn a_date_is_shown_as_it_is_written() {
    let v = loaded(vec![source(
        "theme.toml",
        "when = 1979-05-27T07:32:00Z\nday = 1979-05-27\nat = [07:32:00.5]\n",
    )]);
    assert_eq!(v.get("when"), Some(&"1979-05-27T07:32:00Z".to_string()));
    assert_eq!(v.get("day"), Some(&"1979-05-27".to_string()));
    assert_eq!(v.get("at"), Some(&"[07:32:00.5]".to_string()));
}
