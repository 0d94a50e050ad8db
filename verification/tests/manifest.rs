use sennit::manifest::{Link, Manifest, ManifestError};
use sennit::table::Table;

fn manifest(ignore: &[&str]) -> Manifest {
    Manifest {
        link: Link {
            common: vec![],
            darwin: vec![],
            linux: vec![],
            ignore: ignore.iter().map(|s| s.to_string()).collect(),
        },
        render: Table::new(),
        hooks: Table::new(),
        data: Default::default(),
        modes: Table::new(),
        providers: Table::new(),
        encrypted: Table::new(),
        encryption: None,
    }
}

#[test]
fn ignores_by_extension_glob() {
    let m = manifest(&["*.tmpl"]);
    assert!(m.is_ignored(".config/starship.toml.tmpl"));
    assert!(!m.is_ignored(".config/starship.toml"));
}

#[test]
fn ignores_by_path_prefix() {
    let m = manifest(&[".config/secret"]);
    assert!(m.is_ignored(".config/secret/token"));
    assert!(m.is_ignored(".config/secret"));
    assert!(!m.is_ignored(".config/public/token"));
}

fn with_modes(pairs: &[(&str, &str)]) -> Manifest {
    let mut m = manifest(&[]);
    for (k, v) in pairs {
        m.modes.insert(k.to_string(), v.to_string());
    }
    m
}

#[test]
fn mode_is_read_as_octal() {
    let m = with_modes(&[(".npmrc", "600")]);
    assert_eq!(m.mode_for(".npmrc"), Some(0o600));
}

#[test]
fn the_longest_matching_declaration_wins() {
    let m = with_modes(&[(".ssh", "700"), (".ssh/config", "600")]);
    assert_eq!(m.mode_for(".ssh/config"), Some(0o600));
    assert_eq!(m.mode_for(".ssh/known_hosts"), Some(0o700));
}

#[test]
fn no_declaration_means_no_opinion() {
    let m = manifest(&[]);
    assert_eq!(m.mode_for(".npmrc"), None);
}

#[test]
fn empty_ignore_matches_nothing() {
    let m = manifest(&[]);
    assert!(!m.is_ignored(".config/anything"));
}

#[test]
fn a_pattern_is_rooted_at_the_repository() {
    let m = manifest(&["conf/nvim", "README.md"]);
    assert!(m.is_ignored("conf/nvim/init.lua"));
    assert!(!m.is_ignored("conf/nvim-extra"));
    assert!(m.is_ignored("README.md"));
    assert!(!m.is_ignored("docs/README.md"));
}

#[test]
fn an_extension_is_the_last_one() {
    let m = manifest(&["*.toml"]);
    assert!(m.is_ignored("a.toml"));
    assert!(!m.is_ignored("a.toml.tmpl"));
    assert!(!m.is_ignored(".toml"));
    assert!(!m.is_ignored("toml"));
}

#[test]
fn a_mode_that_is_no_number_gives_none() {
    let m = with_modes(&[("a", "9"), ("b", ""), ("c", "40000000000"), ("d", "+17")]);
    assert_eq!(m.mode_for("a"), None);
    assert_eq!(m.mode_for("b"), None);
    assert_eq!(m.mode_for("c"), None);
    assert_eq!(m.mode_for("d"), Some(0o17));
    let most = with_modes(&[("e", "37777777777")]);
    assert_eq!(most.mode_for("e"), Some(u32::MAX));
}

#[test]
fn a_declaration_applies_to_the_path_it_names() {
    let m = with_modes(&[(".ssh", "700"), (".ssh/config", "600")]);
    assert_eq!(m.declared_mode(".ssh"), Some(0o700));
    assert_eq!(m.declared_mode(".ssh/"), Some(0o700));
    assert_eq!(m.declared_mode(".ssh/config"), Some(0o600));
    assert_eq!(m.declared_mode(".ssh/known_hosts"), None);
}

#[test]
fn targets_follow_the_operating_system() {
    let mut m = manifest(&[]);
    m.link.common = vec![".config".to_string()];
    m.link.darwin = vec![".hammerspoon".to_string()];
    m.link.linux = vec![".local".to_string()];
    assert_eq!(
        m.targets("darwin"),
        vec![".config".to_string(), ".hammerspoon".to_string()]
    );
    assert_eq!(
        m.targets("linux"),
        vec![".config".to_string(), ".local".to_string()]
    );
}

#[test]
fn inputs_are_known() {
    let mut m = manifest(&[]);
    m.render.insert("a".to_string(), "x/a.tmpl".to_string());
    m.encrypted.insert("b".to_string(), "b.age".to_string());
    assert!(m.is_template("x/a.tmpl"));
    assert!(m.is_template("x//a.tmpl"));
    assert!(!m.is_template("a"));
    assert!(m.is_ciphertext("b.age"));
    assert!(!m.is_ciphertext("x/a.tmpl"));
}

#[test]
fn data_defaults_to_the_theme() {
    let mut m = manifest(&[]);
    assert_eq!(m.data_files(), vec!["theme.toml".to_string()]);
    m.data = vec!["colors.toml".to_string()];
    assert_eq!(m.data_files(), vec!["colors.toml".to_string()]);
}

fn escapes(m: &Manifest) -> Option<String> {
    match m.validate() {
        Err(ManifestError::Escapes(p)) => Some(p),
        _ => None,
    }
}

#[test]
fn a_declaration_that_escapes_is_refused() {
    let mut m = manifest(&[]);
    m.link.common = vec!["../outside".to_string()];
    let e = match m.validate() {
        Ok(()) => panic!("the path leaves the repository"),
        Err(e) => e,
    };
    assert!(e.message().contains(".."), "{}", e.message());
    assert_eq!(escapes(&m), Some("../outside".to_string()));
}

#[test]
fn every_declared_path_is_looked_at() {
    let bad = "/abs".to_string();
    let mut m = manifest(&[]);
    m.link.darwin = vec![bad.clone()];
    assert_eq!(escapes(&m), Some(bad.clone()));
    let mut m = manifest(&[]);
    m.link.linux = vec![bad.clone()];
    assert_eq!(escapes(&m), Some(bad.clone()));
    let mut m = manifest(&[]);
    m.render.insert(bad.clone(), "t".to_string());
    assert_eq!(escapes(&m), Some(bad.clone()));
    let mut m = manifest(&[]);
    m.render.insert("o".to_string(), bad.clone());
    assert_eq!(escapes(&m), Some(bad.clone()));
    let mut m = manifest(&[]);
    m.encrypted.insert(bad.clone(), "t".to_string());
    assert_eq!(escapes(&m), Some(bad.clone()));
    let mut m = manifest(&[]);
    m.encrypted.insert("o".to_string(), bad.clone());
    assert_eq!(escapes(&m), Some(bad.clone()));
    let m = with_modes(&[("/abs", "600")]);
    assert_eq!(escapes(&m), Some(bad.clone()));
    let mut m = manifest(&[]);
    m.data = vec!["a/../../b".to_string()];
    assert_eq!(escapes(&m), Some("a/../../b".to_string()));
    let mut m = manifest(&[]);
    m.hooks.insert(
        "h".to_string(),
        sennit::hooks::Hook {
            when_changed: vec!["..".to_string()],
            run: "true".to_string(),
            cwd: None,
        },
    );
    assert_eq!(escapes(&m), Some("..".to_string()));
    let mut m = manifest(&[]);
    m.hooks.insert(
        "h".to_string(),
        sennit::hooks::Hook {
            when_changed: vec![],
            run: "true".to_string(),
            cwd: Some(bad.clone()),
        },
    );
    assert_eq!(escapes(&m), Some(bad));
}

#[test]
fn dots_in_a_name_do_not_escape() {
    let mut m = manifest(&["../ignored"]);
    m.link.common = vec!["..a".to_string(), "b..".to_string(), "./c".to_string()];
    assert!(m.validate().is_ok());
}

#[test]
fn a_mode_is_three_octal_digits() {
    for bad in ["60", "0600", "800", "", "rw-", "6 0", "+60"] {
        let m = with_modes(&[(".npmrc", bad)]);
        match m.validate() {
            Err(ManifestError::BadMode { path, mode }) => {
                assert_eq!(path, ".npmrc");
                assert_eq!(mode, bad);
            }
            _ => panic!("{bad:?} was accepted"),
        }
    }
    assert!(with_modes(&[(".npmrc", "600")]).validate().is_ok());
    let e = match with_modes(&[("x", "60")]).validate() {
        Err(e) => e.message(),
        Ok(()) => panic!("accepted"),
    };
    assert_eq!(e, "mode `60` of `x` is not three octal digits");
}
