use sennit::provider::{default_providers, providers_in_use, shell_words, Provider, SecretCache};
use sennit::render::{
    expand_with, needs_secrets, references_needed, schemes_used, Problem, RenderError,
};
use sennit::table::Table;

fn expand_with_test(
    template: &str,
    vars: &Table<String>,
    source: &str,
) -> Result<String, RenderError> {
    expand_with(template, vars, source, &SecretCache::default())
}

fn vars() -> Table<String> {
    let mut v = Table::new();
    v.insert("ui.bg".into(), "#1a1b26".into());
    v.insert("normal.red".into(), "#f7768e".into());
    v
}

fn expanded(template: &str, vars: &Table<String>, source: &str) -> String {
    match expand_with_test(template, vars, source) {
        Ok(s) => s,
        Err(e) => panic!("{}", e.message()),
    }
}

fn failure(template: &str, vars: &Table<String>) -> String {
    match expand_with_test(template, vars, "t.tmpl") {
        Ok(s) => panic!("expanded to {s:?}"),
        Err(e) => e.message(),
    }
}

#[test]
fn expands_known_variables() {
    let out = expanded("bg = \"{{ ui.bg }}\"", &vars(), "t");
    assert_eq!(out, "bg = \"#1a1b26\"");
}

#[test]
fn expands_multiple_occurrences() {
    let out = expanded("{{ ui.bg }}/{{ normal.red }}/{{ ui.bg }}", &vars(), "t");
    assert_eq!(out, "#1a1b26/#f7768e/#1a1b26");
}

#[test]
fn leaves_text_without_placeholders_untouched() {
    let src = "no placeholders here";
    assert_eq!(expanded(src, &vars(), "t"), src);
}

#[test]
fn tolerates_whitespace_in_placeholder() {
    assert_eq!(expanded("{{ui.bg}}", &vars(), "t"), "#1a1b26");
    assert_eq!(expanded("{{   ui.bg   }}", &vars(), "t"), "#1a1b26");
}

#[test]
fn unknown_variable_is_an_error() {
    let err = failure("{{ nope }}", &vars());
    assert!(err.contains("unknown template variable"));
    assert!(err.contains("t.tmpl"));
    assert_eq!(err, "t.tmpl: unknown template variable `nope`");
}

#[test]
fn unterminated_placeholder_is_an_error() {
    assert!(expand_with_test("{{ ui.bg", &vars(), "t").is_err());
    assert_eq!(failure("{{ ui.bg", &vars()), "t.tmpl: unterminated `{{`");
}

#[test]
fn detects_secret_references() {
    assert!(needs_secrets("token = {{ op://Vault/Item/field }}"));
    assert!(!needs_secrets("bg = {{ ui.bg }}"));
    assert!(!needs_secrets("no placeholders"));
}

#[test]
fn unterminated_placeholder_is_not_a_secret() {
    assert!(!needs_secrets("{{ op://Vault"));
}

#[test]
fn a_condition_drops_a_block() {
    let mut v = vars();
    v.insert("sennit.os".into(), "darwin".into());
    let t = "a\n{{ if sennit.os == \"darwin\" }}mac{{ else }}other{{ end }}\nb";
    assert_eq!(expanded(t, &v, "t"), "a\nmac\nb");
    v.insert("sennit.os".into(), "linux".into());
    assert_eq!(expanded(t, &v, "t"), "a\nother\nb");
    let n = "{{ if sennit.os != \"darwin\" }}x{{ end }}";
    assert_eq!(expanded(n, &v, "t"), "x");
}

#[test]
fn a_bare_variable_means_not_empty() {
    let mut v = vars();
    v.insert("full".into(), "x".into());
    v.insert("empty".into(), "".into());
    assert_eq!(expanded("{{ if full }}y{{ else }}n{{ end }}", &v, "t"), "y");
    assert_eq!(expanded("{{ if empty }}y{{ else }}n{{ end }}", &v, "t"), "n");
}

#[test]
fn conditions_nest() {
    let mut v = vars();
    v.insert("a".into(), "1".into());
    v.insert("b".into(), "".into());
    let t = "{{ if a }}[{{ if b }}x{{ else }}y{{ end }}]{{ else }}z{{ end }}";
    assert_eq!(expanded(t, &v, "t"), "[y]");
}

#[test]
fn a_dropped_branch_is_not_read() {
    let mut v = vars();
    v.insert("sennit.os".into(), "darwin".into());
    let t = "{{ if sennit.os == \"linux\" }}{{ nope }}{{ if nope2 }}{{ end }}{{ end }}ok";
    assert_eq!(expanded(t, &v, "t"), "ok");
}

#[test]
fn a_dropped_else_is_not_read() {
    let mut v = vars();
    v.insert("sennit.os".into(), "darwin".into());
    let t = "{{ if sennit.os == \"darwin\" }}mac{{ else }}{{ nope }}{{ op://a/b }}{{ if x y }}{{ end }}{{ end }}";
    assert_eq!(expanded(t, &v, "t"), "mac");
    assert!(references_needed(t, &v, "t").is_ok_and(|r| r.is_empty()));
}

#[test]
fn an_unset_environment_variable_is_empty_in_a_condition() {
    assert_eq!(
        expanded("{{ if env.WORK }}w{{ else }}h{{ end }}", &vars(), "t"),
        "h"
    );
    assert_eq!(
        failure("{{ env.WORK }}", &vars()),
        "t.tmpl: unknown template variable `env.WORK`"
    );
    assert_eq!(
        failure("{{ if work }}{{ end }}", &vars()),
        "t.tmpl: unknown template variable `work`"
    );
}

#[test]
fn stray_marks_are_errors() {
    assert_eq!(failure("{{ else }}", &vars()), "t.tmpl: `else` without `if`");
    assert_eq!(failure("{{ end }}", &vars()), "t.tmpl: `end` without `if`");
    assert_eq!(
        failure("{{ if ui.bg }}x", &vars()),
        "t.tmpl: `if` without `end`"
    );
    let mut v = vars();
    v.insert("a".into(), "1".into());
    assert!(expand_with_test("{{ if a }}{{ else }}{{ else }}{{ end }}", &v, "t").is_err());
}

#[test]
fn a_malformed_condition_is_an_error() {
    let e = failure("{{ if ui.bg == bare }}{{ end }}", &vars());
    assert!(e.contains("malformed condition"), "{e}");
    let e = failure("{{ if }}{{ end }}", &vars());
    assert!(e.contains("malformed condition"), "{e}");
}

#[test]
fn only_what_is_in_braces_is_interpreted() {
    let src = "[end] { if } else end {{ ui.bg }}";
    assert_eq!(expanded(src, &vars(), "t"), "[end] { if } else end #1a1b26");
}

#[test]
fn a_secret_is_substituted_once_it_is_read() {
    let mut cache = SecretCache::default();
    let t = "token = {{ op://V/I/f }}";
    match expand_with(t, &vars(), "t", &cache) {
        Err(RenderError {
            problem: Problem::Unread(r),
            ..
        }) => assert_eq!(r, "op://V/I/f"),
        _ => panic!("an unread secret was expanded"),
    }
    cache.learn("op://V/I/f", "s3cret\n");
    match expand_with(t, &vars(), "t", &cache) {
        Ok(s) => assert_eq!(s, "token = s3cret"),
        Err(e) => panic!("{}", e.message()),
    }
}

#[test]
fn an_undeclared_scheme_is_named() {
    let mut providers = Table::new();
    providers.insert(
        "fake".to_string(),
        Provider {
            command: "echo {}".to_string(),
            trim: true,
        },
    );
    let cache = SecretCache::with(providers);
    let e = match expand_with("{{ nosuch://x }}", &vars(), "conf.tmpl", &cache) {
        Ok(_) => panic!("expanded"),
        Err(e) => e.message(),
    };
    assert_eq!(
        e,
        "conf.tmpl: no provider is declared for `nosuch://`; declared: fake"
    );
    let e = match cache.command("nosuch://x") {
        Ok(_) => panic!("a command for an undeclared scheme"),
        Err(e) => e.message(),
    };
    assert!(e.contains("nosuch") && e.contains("fake"), "{e}");
}

#[test]
fn references_are_those_that_are_needed() {
    let mut v = vars();
    v.insert("a".into(), "".into());
    let t = "{{ op://x }}{{ if a }}{{ op://y }}{{ end }}{{ op://x }}";
    match references_needed(t, &v, "t") {
        Ok(r) => {
            assert!(r.contains(&"op://x".to_string()));
            assert!(!r.contains(&"op://y".to_string()));
        }
        Err(e) => panic!("{}", e.message()),
    }
    assert_eq!(schemes_used(t), vec!["op".to_string()]);
    assert_eq!(
        schemes_used("{{ a://1 }}{{ b://2 }}{{ a://3 }}"),
        vec!["a".to_string(), "b".to_string()]
    );
}

#[test]
fn the_default_provider_is_op() {
    let p = default_providers();
    assert_eq!(p.keys(), vec!["op".to_string()]);
    let cache = SecretCache::with(providers_in_use(Table::new()));
    assert_eq!(
        cache.command("op://Personal/GitHub/token").ok(),
        Some(vec![
            "op".to_string(),
            "read".to_string(),
            "--no-newline".to_string(),
            "op://Personal/GitHub/token".to_string(),
        ])
    );
}

#[test]
fn a_cache_without_providers_has_op() {
    let mut cache = SecretCache::default();
    assert!(cache.seen.is_empty());
    cache.learn("op://a/b", "x\n");
    assert_eq!(cache.seen.get("op://a/b"), Some(&"x".to_string()));
    assert!(cache.command("op://a/b").is_ok());
    assert!(cache.command("pass://a").is_err());
}

#[test]
fn joined_templates_expand_to_joined_texts() {
    let mut v = vars();
    v.insert("a".into(), "1".into());
    let x = "{{ if a }}[{{ ui.bg }}]{{ end }}";
    let y = "{{ normal.red }};";
    assert_eq!(
        expanded(&format!("{x}\n{y}"), &v, "t"),
        format!("{}\n{}", expanded(x, &v, "t"), expanded(y, &v, "t"))
    );
    assert_eq!(expanded(&format!("a{{b}}{y}"), &v, "t"), "a{b}#f7768e;");
    // A brace before a mark is taken for a part of it.
    assert_eq!(
        failure(&format!("{{{y}"), &v),
        "t.tmpl: unknown template variable `{ normal.red`"
    );
}

#[test]
fn the_argument_stays_one_word() {
    let mut providers = Table::new();
    providers.insert(
        "pass".to_string(),
        Provider {
            command: "pass show {}".to_string(),
            trim: false,
        },
    );
    providers.insert(
        "void".to_string(),
        Provider {
            command: " ".to_string(),
            trim: true,
        },
    );
    let mut cache = SecretCache::with(providers_in_use(providers));
    assert_eq!(
        cache.command("pass://a b; rm").ok(),
        Some(vec![
            "pass".to_string(),
            "show".to_string(),
            "a b; rm".to_string()
        ])
    );
    match cache.command("void://x") {
        Err(e) => assert_eq!(e.message(), "the command of provider `void` is empty"),
        Ok(_) => panic!("nothing to run"),
    }
    match cache.command("plain") {
        Err(e) => assert_eq!(e.message(), "not a reference to a secret"),
        Ok(_) => panic!("not a reference"),
    }
    // Without trimming the line feed stays; what is not declared is not learned.
    cache.learn("pass://k", "v\n");
    cache.learn("nosuch://k", "v\n");
    assert_eq!(cache.seen.get("pass://k"), Some(&"v\n".to_string()));
    assert_eq!(cache.seen.get("nosuch://k"), None);
}

#[test]
fn a_secret_is_read_once() {
    let mut cache = SecretCache::default();
    let refs = vec![
        "op://a".to_string(),
        "op://b".to_string(),
        "op://a".to_string(),
    ];
    assert_eq!(
        cache.unread(&refs),
        vec!["op://a".to_string(), "op://b".to_string()]
    );
    cache.learn("op://a", "1");
    assert_eq!(cache.unread(&refs), vec!["op://b".to_string()]);
}

#[test]
fn only_one_line_feed_is_dropped() {
    let mut cache = SecretCache::default();
    cache.learn("op://a", "x\n\n");
    assert_eq!(cache.seen.get("op://a"), Some(&"x\n".to_string()));
    cache.learn("op://a", "\n");
    assert_eq!(cache.seen.get("op://a"), Some(&"".to_string()));
}

#[test]
fn words_are_split_outside_quotes() {
    assert_eq!(
        shell_words("a  'b c' \"d 'e'\" f'g'h"),
        vec!["a", "b c", "d 'e'", "fgh"]
    );
    assert_eq!(shell_words(""), Vec::<String>::new());
    assert_eq!(shell_words("''"), vec![""]);
    assert_eq!(shell_words("a\t\nb"), vec!["a", "b"]);
}
