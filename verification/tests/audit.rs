use sennit::audit::{
    audit, command_names, commands, count_commands, judge, mentions, referenced, Evidence, RepoFile,
    Use,
};
use sennit::detect::Requirement;
use sennit::packages::{Ignore, Kind, Package, Packages};
use sennit::table::Table;

fn count(text: &str, name: &str) -> Option<usize> {
    count_commands(text).get(name).copied()
}

#[test]
fn counts_the_head_of_each_segment() {
    let c = count_commands("rg foo | bat\ngit status\n");
    assert_eq!(c.get("rg"), Some(&1));
    assert_eq!(c.get("bat"), Some(&1));
    assert_eq!(c.get("git"), Some(&1));
}

#[test]
fn understands_zsh_extended_history() {
    let c = count_commands(": 1700000000:0;rg pattern\n");
    assert_eq!(c.get("rg"), Some(&1));
    assert_eq!(c.get(":"), None);
}

#[test]
fn skips_prefix_commands() {
    let c = count_commands("sudo apt-get install x\nenv FOO=1 rg y\n");
    assert_eq!(c.get("apt-get"), Some(&1));
    assert_eq!(c.get("rg"), Some(&1));
    assert_eq!(c.get("sudo"), None);
}

#[test]
fn strips_leading_paths() {
    let c = count_commands("/opt/homebrew/bin/sennit check\n");
    assert_eq!(c.get("sennit"), Some(&1));
}

#[test]
fn ignores_assignments() {
    let c = count_commands("FOO=bar\n");
    assert!(c.is_empty());
}

#[test]
fn counts_repeated_commands() {
    assert_eq!(count("rg a; rg b && rg c | wc\n", "rg"), Some(3));
    assert_eq!(count("rg a; rg b && rg c | wc\n", "wc"), Some(1));
    assert_eq!(commands("rg a; rg b && rg c | wc\n").len(), 4);
}

#[test]
fn a_prefix_alone_counts_itself() {
    assert_eq!(count("sudo\n", "sudo"), Some(1));
    assert_eq!(count("time env sudo\n", "sudo"), Some(1));
    assert!(count_commands("env FOO=1\n").is_empty());
}

#[test]
fn substitutions_are_no_commands() {
    assert!(count_commands("$(which rg) x\n").is_empty());
    assert!(count_commands("(cd x\n").is_empty());
    assert!(count_commands("/\n").is_empty());
    assert!(count_commands(": 1700000000:0\n").is_empty());
    assert!(count_commands("").is_empty());
}

#[test]
fn an_assignment_without_a_prefix_ends_the_search() {
    assert!(count_commands("FOO=1 rg y\n").is_empty());
}

fn file(rel: &str, text: &str) -> RepoFile {
    RepoFile {
        rel: rel.to_string(),
        size: text.len() as u64,
        text: text.to_string(),
        utf8: true,
    }
}

#[test]
fn words_of_two_bytes_and_more_are_mentioned() {
    let m = mentions(&vec![file("script/run.sh", "git-delta a lazy_git x.y é 語\n")]);
    assert!(m.contains_key("git-delta"));
    assert!(m.contains_key("lazy_git"));
    assert!(!m.contains_key("a"));
    assert!(!m.contains_key("x"));
    // One character, but more than one byte.
    assert!(m.contains_key("é"));
    assert!(m.contains_key("語"));
    assert!(!m.contains_key("x.y"));
}

#[test]
fn what_is_not_searched_is_not_mentioned() {
    let m = mentions(&vec![
        file(".git/config", "alpha"),
        file("target/x", "beta"),
        file("packages.toml", "gamma"),
        file("sub/packages.toml", "delta"),
        file("1/2/3/4/5/6/deep", "epsilon"),
        file("1/2/3/4/5/6/7/deeper", "zeta"),
        file("node_modules/x", "eta"),
    ]);
    let keys = m.keys();
    assert_eq!(keys, vec!["epsilon".to_string(), "eta".to_string()]);
}

#[test]
fn a_large_file_is_not_searched() {
    let mut large = file("big", "alpha");
    large.size = 512 * 1024 + 1;
    let mut fits = file("fits", "beta");
    fits.size = 512 * 1024;
    let m = mentions(&vec![large, fits]);
    assert!(!m.contains_key("alpha"));
    assert!(m.contains_key("beta"));
}

#[test]
fn command_names_are_the_provided_ones_and_its_own() {
    let p = Package {
        provides: vec!["rg".to_string()],
        ..Default::default()
    };
    assert_eq!(
        command_names("ripgrep", &p),
        Some(vec!["rg".to_string(), "ripgrep".to_string()])
    );
    let cask = Package {
        manager: Some("brew-cask".to_string()),
        ..Default::default()
    };
    assert_eq!(command_names("slack", &cask), None);
    let font = Package {
        kind: Some("font".to_string()),
        ..Default::default()
    };
    assert_eq!(command_names("font-x", &font), None);
}

fn evidence() -> Evidence {
    Evidence {
        counts: count_commands("rg x\nrg y\nfd z\nbat q\nbat q\nbat q\n"),
        referenced: vec!["starship".to_string()],
        mentioned: mentions(&vec![file("lefthook.yml", "run: actionlint\n")]),
    }
}

#[test]
fn packages_are_told_apart_by_their_use() {
    let mut packages = Table::new();
    packages.insert(
        "ripgrep".to_string(),
        Package {
            provides: vec!["rg".to_string()],
            ..Default::default()
        },
    );
    for name in ["bat", "fd", "starship", "actionlint", "gdu"] {
        packages.insert(name.to_string(), Package::default());
    }
    packages.insert(
        "slack".to_string(),
        Package {
            manager: Some("brew-cask".to_string()),
            ..Default::default()
        },
    );
    packages.insert(
        "kubectl".to_string(),
        Package {
            optional: true,
            ..Default::default()
        },
    );
    let p = Packages {
        packages,
        ignore: Ignore { commands: vec![] },
    };
    let f = audit(&p, "linux", &vec![], &evidence());
    let used: Vec<(String, u128)> = f.used.into_iter().map(|t| (t.name, t.times)).collect();
    assert_eq!(
        used,
        vec![
            ("bat".to_string(), 3),
            ("ripgrep".to_string(), 2),
            ("fd".to_string(), 1)
        ]
    );
    assert_eq!(
        f.driven,
        vec!["actionlint".to_string(), "starship".to_string()]
    );
    assert_eq!(f.unused, vec!["gdu".to_string()]);
    assert_eq!(f.skipped, 1);
    let told = used.len() + f.driven.len() + f.unused.len() + f.skipped;
    assert_eq!(told, p.applicable("linux", &vec![]).len());
}

#[test]
fn equal_uses_are_in_the_order_of_names() {
    let e = Evidence {
        counts: count_commands("zz\naa\n"),
        referenced: vec![],
        mentioned: Table::new(),
    };
    let mut packages = Table::new();
    packages.insert("zz".to_string(), Package::default());
    packages.insert("aa".to_string(), Package::default());
    let p = Packages {
        packages,
        ignore: Ignore { commands: vec![] },
    };
    let f = audit(&p, "darwin", &vec![], &e);
    let names: Vec<String> = f.used.into_iter().map(|t| t.name).collect();
    assert_eq!(names, vec!["aa".to_string(), "zz".to_string()]);
}

#[test]
fn only_commands_are_referenced() {
    let need = |kind: Kind, name: &str| Requirement {
        kind,
        name: name.to_string(),
        source: "x".to_string(),
    };
    let required = vec![
        need(Kind::Command, "delta"),
        need(Kind::Font, "Cica"),
        need(Kind::Extension, "html"),
        need(Kind::Command, "starship"),
    ];
    assert_eq!(
        referenced(&required),
        vec!["delta".to_string(), "starship".to_string()]
    );
}

#[test]
fn histories_add_up() {
    let (a, b) = ("rg x\nbat y\n", "rg z | wc\n");
    let both = format!("{a}{b}");
    for name in ["rg", "bat", "wc"] {
        let sum = count(a, name).unwrap_or(0) + count(b, name).unwrap_or(0);
        assert_eq!(count(&both, name), Some(sum));
    }
}

#[test]
fn one_package_is_judged() {
    let e = evidence();
    assert!(matches!(judge(&e, "fd", &Package::default()), Use::Typed(1)));
    assert!(matches!(judge(&e, "starship", &Package::default()), Use::Driven));
    assert!(matches!(judge(&e, "gdu", &Package::default()), Use::Unused));
}
