use sennit::manifest::{Link, Manifest};
use sennit::modes::{mode_complaint, mode_refused, mode_step, Fact, ModeStep};
use sennit::packages::{Ignore, Kind, Package, Packages};
use sennit::table::Table;
use sennit::verify::{
    compare, font_dirs, font_installed, is_executable, mode_complaints, presence, resolves, shown,
    verifiable, verify, Machine, Presence, Report,
};

fn text(s: &str) -> Option<String> {
    Some(s.to_string())
}

fn list(names: &[&str]) -> Vec<String> {
    names.iter().map(|s| s.to_string()).collect()
}

#[test]
fn looks_for_provided_names_not_the_package_name() {
    let p = Package {
        provides: list(&["nvim"]),
        ..Default::default()
    };
    let got = verifiable("neovim", &p).unwrap();
    assert_eq!(got, vec![(Kind::Command, "nvim".to_string())]);
}

#[test]
fn falls_back_to_the_package_name() {
    let p = Package::default();
    let got = verifiable("bat", &p).unwrap();
    assert_eq!(got, vec![(Kind::Command, "bat".to_string())]);
}

#[test]
fn gui_casks_are_not_verifiable() {
    let p = Package {
        manager: text("brew-cask"),
        ..Default::default()
    };
    assert!(verifiable("slack", &p).is_none());
}

fn font() -> Package {
    Package {
        manager: text("brew-cask"),
        kind: text("font"),
        provides: list(&["Hack Nerd Font Mono"]),
        ..Default::default()
    }
}

#[test]
fn font_casks_are_verified_by_family_name() {
    let got = verifiable("font-hack-nerd-font", &font()).unwrap();
    assert_eq!(got, vec![(Kind::Font, "Hack Nerd Font Mono".to_string())]);
}

#[test]
fn mise_managed_tools_are_not_verifiable() {
    let p = Package {
        manager: text("mise"),
        ..Default::default()
    };
    assert!(verifiable("go", &p).is_none());
}

#[test]
fn libraries_are_not_verifiable() {
    let p = Package {
        kind: text("library"),
        ..Default::default()
    };
    assert!(verifiable("libyaml", &p).is_none());
}

#[test]
fn a_font_without_families_is_not_verifiable() {
    let p = Package {
        kind: text("font"),
        ..Default::default()
    };
    assert!(verifiable("font-x", &p).is_none());
    let e = Package {
        kind: text("extension"),
        ..Default::default()
    };
    assert!(verifiable("x", &e).is_none());
}

#[test]
fn a_font_is_found_by_the_start_of_a_file_name() {
    let files = list(&["HackNerdFontMono-Regular.ttf", "Cica Bold.otf"]);
    assert!(font_installed("Hack Nerd Font Mono", &files));
    assert!(font_installed("cica bold", &files));
    assert!(font_installed("CICA", &files));
    assert!(!font_installed("Nerd", &files));
    assert!(!font_installed("Hack Nerd Font Mono", &list(&[])));
    assert!(font_installed("ÄHNLICH", &list(&["ähnlich.ttf"])));
}

fn machine() -> Machine {
    Machine {
        commands: list(&["bat", "nvim"]),
        fonts: list(&["HackNerdFontMono-Regular.ttf"]),
    }
}

#[test]
fn names_resolve_by_their_sort() {
    let m = machine();
    assert!(resolves(&m, Kind::Command, "bat"));
    assert!(!resolves(&m, Kind::Command, "HackNerdFontMono-Regular.ttf"));
    assert!(resolves(&m, Kind::Font, "Hack Nerd Font Mono"));
    assert!(!resolves(&m, Kind::Font, "bat"));
}

#[test]
fn one_of_the_names_is_enough() {
    let m = machine();
    let p = Package {
        provides: list(&["vi", "nvim"]),
        ..Default::default()
    };
    assert_eq!(presence(&m, "neovim", &p), Presence::Present);
    let q = Package {
        provides: list(&["vi", "vim"]),
        ..Default::default()
    };
    assert_eq!(presence(&m, "neovim", &q), Presence::Missing);
    assert_eq!(shown("neovim", &q), "vi / vim");
    assert_eq!(shown("neovim", &Package::default()), "neovim");
    assert_eq!(presence(&m, "font-hack", &font()), Presence::Present);
}

#[test]
fn a_report_names_every_package() {
    let mut t = Table::new();
    t.insert("bat".to_string(), Package::default());
    t.insert("fd".to_string(), Package::default());
    t.insert(
        "slack".to_string(),
        Package {
            manager: text("brew-cask"),
            ..Default::default()
        },
    );
    t.insert(
        "kubectl".to_string(),
        Package {
            optional: true,
            ..Default::default()
        },
    );
    let p = Packages {
        packages: t,
        ignore: Ignore { commands: vec![] },
    };
    let r = verify(&p, &machine(), "linux", &list(&["work"]));
    assert_eq!(r.os, "linux");
    assert_eq!(r.profiles, list(&["work"]));
    assert_eq!(r.present, list(&["bat"]));
    assert_eq!(r.missing, list(&["fd"]));
    assert_eq!(r.unverifiable, list(&["slack"]));
    assert_eq!(
        r.verdict(0),
        Err("1 declared package(s) not found on this machine".to_string())
    );
}

#[test]
fn a_machine_passes_or_fails() {
    assert_eq!(report(&["bat"]).verdict(0), Ok(()));
    assert_eq!(
        report(&["bat"]).verdict(2),
        Err("2 path(s) without their declared mode".to_string())
    );
    let mut r = report(&[]);
    r.unverifiable = list(&["slack"]);
    assert_eq!(r.verdict(0), Ok(()));
    r.missing = list(&["fd", "rg"]);
    assert_eq!(
        r.verdict(1),
        Err("2 declared package(s) not found on this machine".to_string())
    );
}

fn report(present: &[&str]) -> Report {
    Report {
        os: "linux".to_string(),
        profiles: vec![],
        present: list(present),
        missing: vec![],
        unverifiable: vec![],
    }
}

#[test]
fn two_machines_are_compared() {
    let c = compare(&report(&["c", "a", "b", "a"]), &report(&["b", "d"]));
    assert_eq!(c.only_a, list(&["a", "c"]));
    assert_eq!(c.only_b, list(&["d"]));
    assert_eq!(c.both, 1);
    let same = compare(&report(&["a", "b"]), &report(&["b", "a"]));
    assert!(same.only_a.is_empty() && same.only_b.is_empty());
    assert_eq!(same.both, 2);
}

#[test]
fn any_execute_bit_is_enough() {
    assert!(is_executable(0o755));
    assert!(is_executable(0o001));
    assert!(!is_executable(0o644));
}

#[test]
fn fonts_are_in_known_directories() {
    assert_eq!(
        font_dirs("/h", true),
        list(&["/h/Library/Fonts", "/Library/Fonts", "/System/Library/Fonts"])
    );
    assert_eq!(
        font_dirs("/h", false),
        list(&[
            "/h/.local/share/fonts",
            "/h/.fonts",
            "/usr/share/fonts",
            "/usr/local/share/fonts"
        ])
    );
}

fn with_modes(pairs: &[(&str, &str)]) -> Manifest {
    let mut m = Manifest {
        link: Link {
            common: vec![],
            darwin: vec![],
            linux: vec![],
            ignore: vec![],
        },
        render: Table::new(),
        hooks: Table::new(),
        data: vec![],
        modes: Table::new(),
        providers: Table::new(),
        encrypted: Table::new(),
        encryption: None,
    };
    for (path, mode) in pairs {
        m.modes.insert(path.to_string(), mode.to_string());
    }
    m
}

#[test]
fn verify_fails_on_a_wrong_mode() {
    let m = with_modes(&[(".npmrc", "600")]);
    let said = mode_complaints(&m, &vec![Fact::File(0o100644)]);
    assert!(
        report(&[]).verdict(said.len()).is_err(),
        "verify should fail on a wrong mode"
    );
    assert!(said[0].contains("declared 600"), "{said:?}");
    assert_eq!(said, list(&[".npmrc: mode 644, declared 600"]));
    let fine = mode_complaints(&m, &vec![Fact::File(0o100600)]);
    assert_eq!(report(&[]).verdict(fine.len()), Ok(()));
    assert_eq!(
        mode_complaint("x", 0o044, &Fact::Directory(0o40007)),
        Some("x: mode 007, declared 044".to_string())
    );
}

#[test]
fn verify_does_not_approve_a_mode_it_could_not_read() {
    let m = with_modes(&[("scripts/tool", "600")]);
    let said = mode_complaints(&m, &vec![Fact::Unreadable]);
    assert_eq!(said, list(&["scripts/tool: could not be read, declared 600"]));
    assert!(report(&[]).verdict(said.len()).is_err());
    assert_eq!(mode_complaint("scripts/tool", 0o600, &Fact::Absent), None);
}

#[test]
fn a_declared_mode_is_applied_to_a_plain_link() {
    assert!(matches!(
        mode_step(0o600, &Fact::File(0o644)),
        ModeStep::Change
    ));
    assert!(matches!(
        mode_step(0o600, &Fact::File(0o600)),
        ModeStep::Nothing
    ));
    assert!(matches!(mode_step(0o600, &Fact::Absent), ModeStep::Nothing));
    assert!(matches!(
        mode_step(0o600, &Fact::Unreadable),
        ModeStep::Unreadable
    ));
}

#[test]
fn a_directory_mode_that_locks_you_out_is_refused() {
    assert!(matches!(
        mode_step(0o600, &Fact::Directory(0o755)),
        ModeStep::Refused
    ));
    assert_eq!(
        mode_refused(".ssh", 0o600),
        "mode 600 on directory `.ssh` would take away your own read or execute bit"
    );
    assert!(matches!(
        mode_step(0o700, &Fact::Directory(0o755)),
        ModeStep::Change
    ));
    assert!(matches!(
        mode_step(0o500, &Fact::Directory(0o500)),
        ModeStep::Nothing
    ));
}

#[test]
fn a_directory_mode_without_read_is_refused() {
    assert!(matches!(
        mode_step(0o300, &Fact::Directory(0o755)),
        ModeStep::Refused
    ));
}

#[test]
fn every_declared_mode_is_looked_at() {
    let m = with_modes(&[(".npmrc", "600"), (".ssh", "700"), ("bin/tool", "755")]);
    let facts = vec![Fact::File(0o644), Fact::Directory(0o700), Fact::Unreadable];
    let said = mode_complaints(&m, &facts);
    assert_eq!(
        said,
        list(&[
            ".npmrc: mode 644, declared 600",
            "bin/tool: could not be read, declared 755"
        ])
    );
    assert!(report(&[]).verdict(said.len()).is_err());
}

#[test]
fn a_dry_run_sets_no_mode() {
    assert_eq!(ModeStep::Change.carried_out(true), ModeStep::Nothing);
    assert_eq!(ModeStep::Change.carried_out(false), ModeStep::Change);
    assert_eq!(ModeStep::Refused.carried_out(true), ModeStep::Refused);
    assert_eq!(ModeStep::Unreadable.carried_out(true), ModeStep::Unreadable);
}
