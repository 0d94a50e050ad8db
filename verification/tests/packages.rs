use sennit::packages::{
    current_os, current_profiles, detect_linux_pm, is_font, matches_profile, resolve, Ignore, Kind,
    Manager, Package, Packages,
};
use sennit::table::Table;

const LINUX: &str = "linux";

fn packages(list: Vec<(&str, Package)>) -> Packages {
    let mut t = Table::new();
    for (name, p) in list {
        t.insert(name.to_string(), p);
    }
    Packages {
        packages: t,
        ignore: Ignore { commands: vec![] },
    }
}

fn none() -> Vec<String> {
    vec![]
}

fn list(names: &[&str]) -> Vec<String> {
    names.iter().map(|s| s.to_string()).collect()
}

fn text(s: &str) -> Option<String> {
    Some(s.to_string())
}

#[test]
fn package_name_is_always_provided() {
    let p = packages(vec![("bat", Package::default())]);
    let provided = p.provided(LINUX, &none());
    assert!(provided.get(Kind::Command, "bat").is_some());
}

#[test]
fn provides_adds_aliases_without_replacing_the_name() {
    let p = packages(vec![(
        "nushell",
        Package {
            provides: list(&["nu"]),
            ..Default::default()
        },
    )]);
    let provided = p.provided(LINUX, &none());
    assert!(provided.get(Kind::Command, "nushell").is_some());
    assert!(provided.get(Kind::Command, "nu").is_some());
}

#[test]
fn optional_packages_are_declared_but_not_installable() {
    let p = packages(vec![(
        "kubectl",
        Package {
            optional: true,
            ..Default::default()
        },
    )]);
    assert_eq!(
        p.provided(LINUX, &none()).get(Kind::Command, "kubectl"),
        Some(true)
    );
    assert!(p.installable(LINUX, &none(), None).is_empty());
}

#[test]
fn ignore_list_counts_as_provided() {
    let mut p = packages(vec![]);
    p.ignore.commands = list(&["brew"]);
    assert_eq!(
        p.provided(LINUX, &none()).get(Kind::Command, "brew"),
        Some(false)
    );
}

#[test]
fn font_package_name_is_not_a_font_name() {
    let p = packages(vec![(
        "font-cica",
        Package {
            kind: text("font"),
            provides: list(&["Cica"]),
            ..Default::default()
        },
    )]);
    let provided = p.provided(LINUX, &none());
    assert!(provided.get(Kind::Font, "Cica").is_some());
    assert!(provided.get(Kind::Font, "font-cica").is_none());
}

#[test]
fn extension_package_name_is_the_reference() {
    let p = packages(vec![(
        "tokyo-night",
        Package {
            kind: text("extension"),
            manager: text("zed-extension"),
            ..Default::default()
        },
    )]);
    assert!(p
        .provided(LINUX, &none())
        .get(Kind::Extension, "tokyo-night")
        .is_some());
}

#[test]
fn fonts_and_commands_live_in_separate_namespaces() {
    let p = packages(vec![(
        "font-x",
        Package {
            kind: text("font"),
            provides: list(&["Hack"]),
            ..Default::default()
        },
    )]);
    let provided = p.provided(LINUX, &none());
    assert!(provided.get(Kind::Font, "Hack").is_some());
    assert!(provided.get(Kind::Command, "Hack").is_none());
}

#[test]
fn zed_extensions_are_not_installed_by_sync() {
    let p = packages(vec![(
        "tokyo-night",
        Package {
            manager: text("zed-extension"),
            kind: text("extension"),
            ..Default::default()
        },
    )]);
    assert!(p.installable(LINUX, &none(), None).is_empty());
}

#[test]
fn apt_declaration_overrides_manager_and_name_on_linux() {
    let p = Package {
        apt: text("libyaml-dev"),
        yay: text("libyaml"),
        ..Default::default()
    };
    let r = resolve("libyaml", &p, Some(Manager::Apt)).unwrap();
    assert_eq!(r.manager, Manager::Apt);
    assert_eq!(r.name, "libyaml-dev");
}

#[test]
fn yay_declaration_is_used_on_arch() {
    let p = Package {
        apt: text("build-essential"),
        yay: text("base-devel"),
        ..Default::default()
    };
    let r = resolve("build-essential", &p, Some(Manager::Yay)).unwrap();
    assert_eq!(r.manager, Manager::Yay);
    assert_eq!(r.name, "base-devel");
}

#[test]
fn falls_back_to_default_manager_when_no_distro_name() {
    let p = Package::default();
    let r = resolve("bat", &p, Some(Manager::Apt)).unwrap();
    assert_eq!(r.manager, Manager::Brew);
    assert_eq!(r.name, "bat");
}

fn cask() -> Package {
    Package {
        manager: text("brew-cask"),
        ..Default::default()
    }
}

#[test]
fn casks_are_skipped_on_linux() {
    assert!(resolve("alacritty", &cask(), Some(Manager::Apt)).is_none());
}

#[test]
fn font_casks_still_apply_on_linux() {
    let p = Package {
        kind: text("font"),
        ..cask()
    };
    let r = resolve("font-cica", &p, Some(Manager::Apt)).unwrap();
    assert_eq!(r.manager, Manager::BrewCask);
}

#[test]
fn distro_names_are_ignored_on_macos() {
    let p = Package {
        apt: text("libyaml-dev"),
        ..Default::default()
    };
    let r = resolve("libyaml", &p, None).unwrap();
    assert_eq!(r.manager, Manager::Brew);
    assert_eq!(r.name, "libyaml");
}

#[test]
fn manager_defaults_to_brew() {
    let p = packages(vec![("bat", Package::default())]);
    let i = p.installable(LINUX, &none(), None);
    assert_eq!(i.len(), 1);
    assert_eq!(i[0].manager, Manager::Brew);
}

fn refusal(p: &Packages) -> String {
    match p.validate() {
        Ok(()) => panic!("accepted"),
        Err(e) => e.message(),
    }
}

#[test]
fn an_unknown_manager_is_rejected() {
    let p = packages(vec![(
        "ripgrep",
        Package {
            manager: text("brew-casks"),
            ..Default::default()
        },
    )]);
    let e = refusal(&p);
    assert!(e.contains("unknown manager"), "{e}");
    assert_eq!(
        e,
        "package `ripgrep` has an unknown manager `brew-casks`; \
         expected one of: brew, brew-cask, mise, apt, yay, zed-extension, none"
    );
}

#[test]
fn an_unknown_kind_is_rejected() {
    let p = packages(vec![(
        "cica",
        Package {
            kind: text("fonts"),
            ..Default::default()
        },
    )]);
    let e = refusal(&p);
    assert!(e.contains("unknown kind"), "{e}");
}

#[test]
fn an_unknown_os_is_rejected() {
    let p = packages(vec![(
        "trash",
        Package {
            os: list(&["macos"]),
            ..Default::default()
        },
    )]);
    let e = refusal(&p);
    assert!(e.contains("unknown os"), "{e}");
}

#[test]
fn an_unknown_os_is_named_among_known_ones() {
    let p = packages(vec![(
        "trash",
        Package {
            os: list(&["linux", "macos"]),
            ..Default::default()
        },
    )]);
    assert_eq!(
        refusal(&p),
        "package `trash` has an unknown os `macos`; expected darwin or linux"
    );
}

#[test]
fn declaring_no_manager_is_allowed() {
    let p = packages(vec![(
        "something",
        Package {
            manager: text("none"),
            ..Default::default()
        },
    )]);
    assert!(p.validate().is_ok());
    assert_eq!(
        p.packages.get("something").unwrap().manager_of(),
        Manager::Unmanaged
    );
    assert!(p.installable(LINUX, &none(), None).is_empty());
}

#[test]
fn the_first_misspelling_is_named() {
    let p = packages(vec![
        (
            "b",
            Package {
                kind: text("x"),
                ..Default::default()
            },
        ),
        (
            "a",
            Package {
                manager: text("x"),
                kind: text("y"),
                ..Default::default()
            },
        ),
    ]);
    assert!(refusal(&p).starts_with("package `a` has an unknown manager `x`"));
}

#[test]
fn managers_are_parsed_by_name() {
    let expected = [
        ("brew", Manager::Brew),
        ("brew-cask", Manager::BrewCask),
        ("mise", Manager::Mise),
        ("apt", Manager::Apt),
        ("yay", Manager::Yay),
        ("zed-extension", Manager::ZedExtension),
        ("none", Manager::Unmanaged),
        ("Brew", Manager::Unknown),
        ("", Manager::Unknown),
    ];
    for (name, manager) in expected {
        assert_eq!(Manager::parse(Some(name)), manager, "{name}");
    }
    assert_eq!(Manager::parse(None), Manager::Brew);
}

#[test]
fn kinds_are_named() {
    for (name, kind) in [
        ("command", Kind::Command),
        ("font", Kind::Font),
        ("extension", Kind::Extension),
        ("library", Kind::Library),
    ] {
        let p = Package {
            kind: text(name),
            ..Default::default()
        };
        assert_eq!(p.kind_of(), kind);
        assert_eq!(kind.label(), name);
        assert_eq!(is_font(&p), kind == Kind::Font);
    }
    assert_eq!(Package::default().kind_of(), Kind::Command);
}

#[test]
fn a_profile_restricts_a_package() {
    assert!(matches_profile(&none(), &none()));
    assert!(matches_profile(&none(), &list(&["work"])));
    assert!(!matches_profile(&list(&["work"]), &none()));
    assert!(matches_profile(&list(&["work", "x"]), &list(&["y", "x"])));
    let p = packages(vec![(
        "slack",
        Package {
            profiles: list(&["work"]),
            ..cask()
        },
    )]);
    assert!(p.applicable("darwin", &none()).is_empty());
    assert_eq!(p.applicable("darwin", &list(&["work"])).len(), 1);
    assert_eq!(
        p.provided("darwin", &none()).get(Kind::Command, "slack"),
        Some(true)
    );
    assert_eq!(
        p.provided("darwin", &list(&["work"]))
            .get(Kind::Command, "slack"),
        Some(false)
    );
}

#[test]
fn an_operating_system_restricts_a_package() {
    let p = packages(vec![
        (
            "trash",
            Package {
                os: list(&["darwin"]),
                ..Default::default()
            },
        ),
        ("bat", Package::default()),
    ]);
    let names: Vec<String> = p
        .applicable(LINUX, &none())
        .into_iter()
        .map(|(n, _)| n)
        .collect();
    assert_eq!(names, list(&["bat"]));
    assert_eq!(p.applicable("darwin", &none()).len(), 2);
    assert_eq!(
        p.provided(LINUX, &none()).get(Kind::Command, "trash"),
        Some(true)
    );
}

#[test]
fn what_is_installed_is_in_the_order_of_its_names() {
    let p = packages(vec![
        (
            "a",
            Package {
                apt: text("zzz"),
                ..Default::default()
            },
        ),
        ("b", Package::default()),
        ("slack", cask()),
        (
            "font-x",
            Package {
                kind: text("font"),
                ..cask()
            },
        ),
    ]);
    let on = |os: &str, pm: Option<Manager>| -> Vec<(String, Manager)> {
        p.installable(os, &vec![], pm)
            .into_iter()
            .map(|i| (i.name, i.manager))
            .collect()
    };
    assert_eq!(
        on(LINUX, Some(Manager::Apt)),
        vec![
            ("b".to_string(), Manager::Brew),
            ("font-x".to_string(), Manager::BrewCask),
            ("zzz".to_string(), Manager::Apt),
        ]
    );
    // Casks are for macOS, fonts aside, whatever manager a distribution has.
    assert_eq!(
        on(LINUX, None),
        vec![
            ("a".to_string(), Manager::Brew),
            ("b".to_string(), Manager::Brew),
            ("font-x".to_string(), Manager::BrewCask),
        ]
    );
    assert_eq!(on("darwin", None).len(), 4);
}

#[test]
fn profiles_are_a_list_with_commas() {
    assert_eq!(current_profiles(None), none());
    assert_eq!(current_profiles(Some("")), none());
    assert_eq!(
        current_profiles(Some(" work , ,home,")),
        list(&["work", "home"])
    );
}

#[test]
fn the_machine_is_named() {
    assert_eq!(current_os(true), "darwin");
    assert_eq!(current_os(false), "linux");
    assert_eq!(detect_linux_pm(true, true), Some(Manager::Yay));
    assert_eq!(detect_linux_pm(false, true), Some(Manager::Apt));
    assert_eq!(detect_linux_pm(false, false), None);
}
