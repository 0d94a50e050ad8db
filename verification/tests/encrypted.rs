use sennit::encrypted::{expand_home, Encryption};

fn enc(identity: Option<&str>) -> Encryption {
    Encryption {
        command: "age -d -i key {}".into(),
        identity: identity.map(|s| s.to_string()),
    }
}

fn key_exists(e: &Encryption) -> bool {
    match e.identity_path(None) {
        Some(p) => std::path::Path::new(&p).exists(),
        None => false,
    }
}

#[test]
fn without_a_declared_identity_it_tries() {
    let e = enc(None);
    assert!(e.ready(key_exists(&e)));
}

#[test]
fn a_missing_identity_defers_instead_of_failing() {
    let e = enc(Some("/nonexistent/key.txt"));
    assert!(!e.ready(key_exists(&e)));
}

#[test]
fn an_existing_identity_is_ready() {
    let e = enc(Some("/"));
    assert!(e.ready(key_exists(&e)));
}

#[test]
fn tilde_is_expanded() {
    let home = "/home/me";
    assert_eq!(expand_home("~/x", Some(home)), format!("{home}/x"));
    assert_eq!(expand_home("/abs/x", Some(home)), "/abs/x");
}

#[test]
fn without_a_home_a_tilde_stays() {
    assert_eq!(expand_home("~/x", None), "~/x");
    assert_eq!(expand_home("~x", Some("/h")), "~x");
    assert_eq!(expand_home("a~/x", Some("/h")), "a~/x");
}

#[test]
fn the_identity_is_expanded() {
    assert_eq!(
        enc(Some("~/key")).identity_path(Some("/h")),
        Some("/h/key".to_string())
    );
    assert_eq!(enc(None).identity_path(Some("/h")), None);
}

#[test]
fn the_command_names_the_file() {
    let e = Encryption {
        command: "age -d -i ~/.config/sennit/age.key {}".into(),
        identity: None,
    };
    let words = e.decrypt_command("/repo/my file.age", Some("/h")).ok();
    assert_eq!(
        words,
        Some(vec![
            "age".to_string(),
            "-d".to_string(),
            "-i".to_string(),
            "/h/.config/sennit/age.key".to_string(),
            "/repo/my file.age".to_string(),
        ])
    );
}

#[test]
fn an_empty_command_is_an_error() {
    let e = Encryption {
        command: "  ".into(),
        identity: None,
    };
    match e.decrypt_command("x", None) {
        Ok(_) => panic!("an empty command decrypts nothing"),
        Err(e) => assert_eq!(e.message(), "encryption command is empty"),
    }
}
