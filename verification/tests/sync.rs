use sennit::packages::{Installable, Manager};
use sennit::sync::{
    declared_count, failure, install, installed, is_root, label, list_installed, missing,
    needs_root, order, query, run, sync_message, Escalation, EscalationError, Invocation, Sync,
};

fn pos(m: Manager) -> usize {
    order().iter().position(|x| *x == m).unwrap()
}

#[test]
fn distro_packages_are_installed_before_homebrew() {
    assert!(pos(Manager::Apt) < pos(Manager::Brew));
    assert!(pos(Manager::Apt) < pos(Manager::BrewCask));
    assert!(pos(Manager::Yay) < pos(Manager::Brew));
}

#[test]
fn mise_runs_after_the_manager_that_installs_it() {
    assert!(pos(Manager::Brew) < pos(Manager::Mise));
}

#[test]
fn casks_run_after_formulae() {
    assert!(pos(Manager::Brew) < pos(Manager::BrewCask));
}

#[test]
fn root_does_not_use_sudo() {
    assert_eq!(Escalation::Direct.prefix(), None);
}

#[test]
fn non_root_uses_sudo() {
    assert_eq!(Escalation::Sudo.prefix(), Some("sudo"));
}

#[test]
fn managers_have_labels() {
    assert_eq!(label(Manager::Brew), "brew");
    assert_eq!(label(Manager::BrewCask), "brew --cask");
    assert_eq!(label(Manager::Mise), "mise");
    assert_eq!(label(Manager::Apt), "apt");
    assert_eq!(label(Manager::Yay), "yay");
    assert_eq!(label(Manager::ZedExtension), "zed");
    assert_eq!(label(Manager::Unmanaged), "-");
    assert_eq!(label(Manager::Unknown), "-");
}

fn line(words: &[&str]) -> Vec<String> {
    words.iter().map(|s| s.to_string()).collect()
}

#[test]
fn each_manager_is_asked_in_its_own_way() {
    assert_eq!(
        query(Manager::Brew),
        Some(line(&["brew", "list", "--formula", "-1"]))
    );
    assert_eq!(
        query(Manager::BrewCask),
        Some(line(&["brew", "list", "--cask", "-1"]))
    );
    assert_eq!(
        query(Manager::Mise),
        Some(line(&["mise", "ls", "--installed", "--no-header"]))
    );
    assert_eq!(
        query(Manager::Apt),
        Some(line(&[
            "dpkg-query",
            "-W",
            "-f=${binary:Package} ${db:Status-Status}\n"
        ]))
    );
    assert_eq!(query(Manager::Yay), Some(line(&["pacman", "-Qq"])));
    assert_eq!(query(Manager::ZedExtension), None);
    assert_eq!(query(Manager::Unmanaged), None);
}

#[test]
fn apt_lists_removed_packages_too() {
    let out = "bat installed\nlibc6:amd64 installed\nvim config-files\n\nold  not-installed\n";
    assert_eq!(installed(Manager::Apt, out), line(&["bat", "libc6"]));
}

#[test]
fn other_managers_list_names_first() {
    assert_eq!(
        installed(Manager::Mise, "go  1.22.0 ~/x\n\nnode 20\r\n"),
        line(&["go", "node"])
    );
    assert_eq!(
        installed(Manager::Brew, "libc6:amd64 installed\n"),
        line(&["libc6:amd64"])
    );
}

fn wanted() -> Vec<Installable> {
    vec![
        Installable {
            name: "bat".to_string(),
            manager: Manager::Brew,
        },
        Installable {
            name: "fd".to_string(),
            manager: Manager::Brew,
        },
        Installable {
            name: "unzip".to_string(),
            manager: Manager::Apt,
        },
    ]
}

#[test]
fn only_the_difference_is_missing() {
    let w = wanted();
    assert_eq!(missing(&w, Manager::Brew, &line(&["bat"])), line(&["fd"]));
    assert_eq!(
        missing(&w, Manager::Brew, &line(&["bat", "fd"])),
        line(&[])
    );
    assert_eq!(missing(&w, Manager::Apt, &line(&[])), line(&["unzip"]));
    assert_eq!(declared_count(&w, Manager::Brew), 2);
    assert_eq!(declared_count(&w, Manager::Mise), 0);
}

fn lines(v: Vec<Invocation>) -> Vec<Vec<String>> {
    v.iter().map(|i| i.line()).collect()
}

#[test]
fn packages_are_installed_by_their_manager() {
    let names = line(&["a", "b"]);
    let root = Escalation::Direct;
    assert_eq!(
        lines(install(Manager::Brew, &names, root)),
        vec![line(&["brew", "install", "a", "b"])]
    );
    assert_eq!(
        lines(install(Manager::BrewCask, &names, root)),
        vec![line(&["brew", "install", "--cask", "a", "b"])]
    );
    assert_eq!(
        lines(install(Manager::Mise, &names, root)),
        vec![line(&["mise", "use", "-g", "a", "b"])]
    );
    assert_eq!(
        lines(install(Manager::Yay, &names, Escalation::Sudo)),
        vec![line(&["yay", "-S", "--noconfirm", "a", "b"])]
    );
    assert_eq!(
        lines(install(Manager::Apt, &names, Escalation::Sudo)),
        vec![
            line(&["sudo", "apt-get", "update"]),
            line(&["sudo", "apt-get", "install", "-y", "a", "b"]),
        ]
    );
    assert_eq!(
        lines(install(Manager::Apt, &names, root)),
        vec![
            line(&["apt-get", "update"]),
            line(&["apt-get", "install", "-y", "a", "b"]),
        ]
    );
    let failed: Vec<String> = install(Manager::Apt, &names, Escalation::Sudo)
        .iter()
        .map(|i| i.failed())
        .collect();
    assert_eq!(
        failed,
        line(&["`sudo apt-get update` failed", "`sudo apt-get install -y` failed"])
    );
    assert!(needs_root(Manager::Apt));
    assert!(!needs_root(Manager::Yay));
    assert!(install(Manager::ZedExtension, &names, root).is_empty());
    assert_eq!(
        run("x", &line(&["y"]), &line(&["z"])).line(),
        line(&["x", "y", "z"])
    );
    assert_eq!(
        Escalation::Sudo.run("x", &line(&["y"]), &line(&["z"])).line(),
        line(&["sudo", "x", "y", "z"])
    );
}

#[test]
fn root_is_had_without_hanging() {
    let yes = true;
    let no = false;
    assert_eq!(Escalation::detect(yes, no, no, no), Ok(Escalation::Direct));
    assert_eq!(
        Escalation::detect(no, no, yes, yes),
        Err(EscalationError::NoSudo)
    );
    assert_eq!(Escalation::detect(no, yes, yes, no), Ok(Escalation::Sudo));
    assert_eq!(Escalation::detect(no, yes, no, yes), Ok(Escalation::Sudo));
    assert_eq!(
        Escalation::detect(no, yes, no, no),
        Err(EscalationError::NoTerminal)
    );
    assert!(EscalationError::NoSudo.message().contains("not installed"));
    assert!(EscalationError::NoTerminal
        .message()
        .contains("there is no terminal to ask on.\nRun sennit"));
    assert!(is_root("0\n"));
    assert!(!is_root("1000\n"));
    assert!(!is_root(""));
}

#[test]
fn the_end_is_told() {
    assert_eq!(
        sync_message(3, true),
        "3 package(s) would be installed (--dry-run)"
    );
    assert_eq!(
        sync_message(0, false),
        "all declared packages are already installed"
    );
    assert_eq!(sync_message(12, false), "12 package(s) installed");
    assert_eq!(
        failure(&line(&["brew", "list"]), " no such file \n"),
        "`brew list` failed: no such file"
    );
}

fn declared() -> Vec<Installable> {
    [
        ("bat", Manager::Brew),
        ("fd", Manager::Brew),
        ("go", Manager::Mise),
        ("libyaml-dev", Manager::Apt),
    ]
    .iter()
    .map(|(n, m)| Installable {
        name: n.to_string(),
        manager: *m,
    })
    .collect()
}

fn listed(m: Manager, output: &str) -> Vec<String> {
    list_installed(m, true, output, "").unwrap()
}

#[test]
fn a_listing_that_failed_is_not_an_empty_one() {
    assert_eq!(
        list_installed(Manager::Brew, false, "", "no such file\n"),
        Err("`brew list --formula -1` failed: no such file".to_string())
    );
    assert_eq!(list_installed(Manager::Brew, true, "", "a warning"), Ok(vec![]));
    assert_eq!(
        list_installed(Manager::Yay, true, "git\nyay\n", ""),
        Ok(line(&["git", "yay"]))
    );
    assert_eq!(list_installed(Manager::ZedExtension, false, "", ""), Ok(vec![]));
}

#[test]
fn a_run_goes_through_the_managers_in_turn() {
    let mut r = Sync::new(declared());
    assert_eq!(r.next(), Some(Manager::Apt));
    let apt = r.step(&listed(Manager::Apt, "libyaml-dev:amd64 installed\n"), false).unwrap();
    assert_eq!((apt.manager, apt.declared), (Manager::Apt, 1));
    assert!(apt.missing.is_empty());
    assert!(!apt.install);
    // Nothing is declared for `yay`.
    assert_eq!(r.next(), Some(Manager::Brew));
    let brew = r.step(&listed(Manager::Brew, "bat\njq\n"), false).unwrap();
    assert_eq!(brew.declared, 2);
    assert_eq!(brew.missing, line(&["fd"]));
    assert!(brew.install);
    assert_eq!(r.next(), Some(Manager::Mise));
    let mise = r.step(&vec![], false).unwrap();
    assert_eq!(mise.missing, line(&["go"]));
    assert_eq!(r.next(), None);
    assert!(r.step(&vec![], false).is_none());
    assert_eq!(r.message(false), "2 package(s) installed");
    assert_eq!(apt.declared + brew.declared + mise.declared, declared().len());
}

#[test]
fn a_dry_run_installs_nothing() {
    let mut r = Sync::new(declared());
    let mut total = 0;
    while r.next().is_some() {
        let step = r.step(&vec![], true).unwrap();
        assert!(!step.install);
        total += step.declared;
    }
    assert_eq!(total, 4);
    assert_eq!(r.message(true), "4 package(s) would be installed (--dry-run)");
}

#[test]
fn a_second_run_has_nothing_to_install() {
    let mut r = Sync::new(declared());
    while let Some(m) = r.next() {
        let listing = match m {
            Manager::Apt => "libyaml-dev installed\n",
            Manager::Brew => "bat\nfd\n",
            _ => "go 1.24\n",
        };
        assert!(r.step(&listed(m, listing), false).unwrap().missing.is_empty());
    }
    assert_eq!(r.message(false), "all declared packages are already installed");
}
