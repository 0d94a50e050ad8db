use sennit::audit::RepoFile;
use sennit::check::{check, standing, undeclared_message, Standing};
use sennit::detect::{
    alacritty, command_name, encryption_tool, find_all, git_config, read, scan, zed, zsh, Repo,
    Requirement,
};
use sennit::encrypted::Encryption;
use sennit::packages::{Ignore, Kind, Package, Packages};
use sennit::provider::{providers_in_use, Provider};
use sennit::table::Table;

/// A repository for the detectors, made of texts.
struct Fixture {
    repo: Repo,
    providers: Vec<(String, String)>,
    encryption: Option<Encryption>,
}

impl Fixture {
    fn new() -> Self {
        let f = Fixture {
            repo: Repo {
                files: vec![],
                dirs: vec![],
            },
            providers: vec![],
            encryption: None,
        };
        f.dir(".config").file("sennit.toml", "[link]\ncommon = []\n")
    }

    fn dir(mut self, rel: &str) -> Self {
        self.repo.dirs.push(rel.to_string());
        self
    }

    fn file(mut self, rel: &str, body: &str) -> Self {
        let mut parent = rel;
        while let Some(i) = parent.rfind('/') {
            parent = &parent[..i];
            if !self.repo.dirs.iter().any(|d| d == parent) {
                self.repo.dirs.push(parent.to_string());
            }
        }
        self.repo.files.push(RepoFile {
            rel: rel.to_string(),
            size: body.len() as u64,
            text: body.to_string(),
            utf8: true,
        });
        self
    }

    fn provider(mut self, scheme: &str, command: &str) -> Self {
        self.providers.push((scheme.to_string(), command.to_string()));
        self
    }

    fn scan(&self) -> Vec<Requirement> {
        let mut t = Table::new();
        for (scheme, command) in &self.providers {
            t.insert(
                scheme.clone(),
                Provider {
                    command: command.clone(),
                    trim: true,
                },
            );
        }
        scan(&self.repo, &providers_in_use(t), &self.encryption)
    }

    fn names(&self) -> Vec<String> {
        self.scan().into_iter().map(|r| r.name).collect()
    }
}

#[test]
fn a_config_directory_is_evidence_of_a_dependency() {
    let f = Fixture::new().dir(".config/direnv");
    assert!(f.names().contains(&"direnv".to_string()));
}

#[test]
fn a_single_config_file_is_named_without_its_extension() {
    let f = Fixture::new()
        .file(".config/starship.toml", "")
        .file(".config/kitty.conf", "")
        .file(".config/some.yaml", "");
    let names = f.names();
    for want in ["starship", "kitty", "some"] {
        assert!(
            names.contains(&want.to_string()),
            "{names:?} missing {want}"
        );
    }
    for bad in ["kitty.conf", "some.yaml"] {
        assert!(!names.contains(&bad.to_string()), "{names:?} has {bad}");
    }
}

#[test]
fn a_template_is_skipped_when_its_output_exists() {
    let f = Fixture::new()
        .dir(".config/alacritty.tmpl")
        .dir(".config/alacritty");
    let names = f.names();
    assert_eq!(names.iter().filter(|n| *n == "alacritty").count(), 1);
}

#[test]
fn a_template_stands_for_an_output_that_is_not_there() {
    let f = Fixture::new().file(".config/starship.toml.tmpl", "");
    assert_eq!(f.names(), vec!["starship".to_string()]);
}

#[test]
fn a_secret_requires_the_provider_it_actually_names() {
    let f = Fixture::new()
        .provider("pass", "pass show {}")
        .file(".config/x.conf.tmpl", "token = {{ pass://a/b }}\n");
    let names = f.names();
    assert!(names.contains(&"pass".to_string()), "{names:?}");
    assert!(!names.contains(&"op".to_string()), "{names:?}");
}

#[test]
fn without_a_declaration_a_secret_requires_op() {
    let f = Fixture::new().file(".config/x.conf.tmpl", "token = {{ op://a/b }}\n");
    assert!(f.names().contains(&"op".to_string()));
}

#[test]
fn an_annotation_declares_a_requirement_by_hand() {
    let f = Fixture::new().file(".config/x/conf", "# sennit: requires command jq\n");
    assert!(f.names().contains(&"jq".to_string()));
}

#[test]
fn a_font_family_in_the_terminal_config_is_a_requirement() {
    let f = Fixture::new().file(
        ".config/alacritty/alacritty.toml",
        "[font.normal]\nfamily = \"Hack Nerd Font Mono\"\n",
    );
    let reqs = f.scan();
    assert!(reqs
        .iter()
        .any(|r| r.kind == Kind::Font && r.name == "Hack Nerd Font Mono"));
}

#[test]
fn a_command_from_git_config_is_a_requirement() {
    let f = Fixture::new().file(
        ".config/git/config",
        "[core]\n\tpager = delta\n[interactive]\n\tdiffFilter = delta --color-only\n",
    );
    assert!(f.names().contains(&"delta".to_string()));
}

#[test]
fn dotfiles_under_config_are_not_requirements() {
    let f = Fixture::new().file(".config/.DS_Store", "");
    assert!(!f.names().contains(&".DS_Store".to_string()));
}

fn told(reqs: &[Requirement]) -> Vec<(Kind, String, String)> {
    reqs.iter()
        .map(|r| (r.kind, r.name.clone(), r.source.clone()))
        .collect()
}

#[test]
fn a_command_is_named_without_its_path_and_arguments() {
    assert_eq!(command_name(" !/opt/bin/gh auth x").as_deref(), Some("gh"));
    assert_eq!(command_name("!!  delta").as_deref(), Some("delta"));
    assert_eq!(command_name("/"), None);
    assert_eq!(command_name("  "), None);
    assert_eq!(command_name("!"), None);
}

#[test]
fn texts_are_found_between_marks() {
    assert_eq!(find_all("a = \"x\" a = \"y\"", "a = \""), vec!["x", "y"]);
    assert_eq!(find_all("f(1) f(2", "f("), vec!["1"]);
    assert_eq!(find_all("c[1]c[]", "c["), vec!["1", ""]);
    assert_eq!(find_all("abc", "a"), Vec::<String>::new());
    assert_eq!(find_all("abc", ""), Vec::<String>::new());
    // The search goes on at the closing character.
    assert_eq!(find_all("\"a\" \"b\"", "\""), vec!["a", " ", "b"]);
}

#[test]
fn git_sources_name_the_key() {
    let f = Fixture::new().file(
        ".config/git/config",
        "pager = delta\nhelper=!/usr/bin/gh auth\nuser = me\nhelper =\n",
    );
    let mut out = vec![];
    git_config(&f.repo.files, &mut out);
    assert_eq!(
        told(&out),
        vec![
            (
                Kind::Command,
                "delta".to_string(),
                ".config/git/config (pager)".to_string()
            ),
            (
                Kind::Command,
                "gh".to_string(),
                ".config/git/config (helper)".to_string()
            ),
        ]
    );
}

#[test]
fn zed_names_fonts_and_extensions() {
    let f = Fixture::new().file(
        ".config/zed/settings.json",
        "{ \"buffer_font_family\": \"Cica\", \"terminal\": { \"font_family\": \"Hack\" },\n\
         \"auto_install_extensions\": { \"html\": true, \"toml\" : true, \"\": true } }",
    );
    let mut out = vec![];
    zed(&f.repo.files, &mut out);
    let got: Vec<(Kind, String)> = out.into_iter().map(|r| (r.kind, r.name)).collect();
    assert_eq!(
        got,
        vec![
            (Kind::Font, "Cica".to_string()),
            (Kind::Font, "Hack".to_string()),
            (Kind::Extension, "html".to_string()),
            (Kind::Extension, "toml".to_string()),
        ]
    );
}

#[test]
fn zsh_files_run_and_ask_for_commands() {
    let f = Fixture::new()
        .file(".zshenv", "eval \"$(brew shellenv)\"\n")
        .file(".config/zsh/rc/a.zsh", "if (( ${+commands[fzf]} )); then\n")
        .file(".config/zsh/rc/sub/b.zsh", "eval \"$(nope x)\"\n")
        .file(".config/zsh/.zshrc", "eval \"$(/opt/bin/starship init)\"\n");
    let mut out = vec![];
    zsh(&f.repo.files, &mut out);
    assert_eq!(
        told(&out),
        vec![
            (
                Kind::Command,
                "brew".to_string(),
                ".zshenv (eval)".to_string()
            ),
            (
                Kind::Command,
                "fzf".to_string(),
                ".config/zsh/rc/a.zsh (commands[])".to_string()
            ),
            (
                Kind::Command,
                "starship".to_string(),
                ".config/zsh/.zshrc (eval)".to_string()
            ),
        ]
    );
}

#[test]
fn a_template_is_read_in_place_of_its_output() {
    let f = Fixture::new().file(
        ".config/alacritty/alacritty.toml.tmpl",
        "family = \"Cica\"\nbg = \"{{ ui.bg }}\"\n",
    );
    assert!(read(&f.repo.files, ".config/alacritty/alacritty.toml").is_some());
    assert!(read(&f.repo.files, ".config/nope").is_none());
    let mut out = vec![];
    alacritty(&f.repo.files, &mut out);
    assert_eq!(out.len(), 1);
    assert_eq!(out[0].name, "Cica");
}

#[test]
fn a_file_that_is_no_text_is_not_read() {
    let mut f = Fixture::new().file(".config/alacritty/alacritty.toml", "family = \"Cica\"\n");
    let n = f.repo.files.len();
    f.repo.files[n - 1].utf8 = false;
    let mut out = vec![];
    alacritty(&f.repo.files, &mut out);
    assert!(out.is_empty());
}

#[test]
fn annotations_have_three_kinds() {
    let f = Fixture::new()
        .file(
            ".config/x/conf",
            "// sennit: requires font \" Hack Nerd Font Mono \"\n\
             ; sennit: requires extension html\n\
             sennit: requires library z\n\
             sennit: requires command\n\
             sennit: requires command \"\"\n",
        )
        .file(".zshenv", "# sennit: requires command   hunk   \n")
        .file("other", "# sennit: requires command nope\n")
        .file(
            ".config/node_modules/y",
            "# sennit: requires command nope2\n",
        );
    let got: Vec<(Kind, String)> = f
        .scan()
        .into_iter()
        .filter(|r| r.source.ends_with("(annotation)"))
        .map(|r| (r.kind, r.name))
        .collect();
    assert_eq!(
        got,
        vec![
            (Kind::Command, "hunk".to_string()),
            (Kind::Extension, "html".to_string()),
            (Kind::Font, "Hack Nerd Font Mono".to_string()),
        ]
    );
}

#[test]
fn a_large_file_is_not_searched_for_annotations() {
    let mut f = Fixture::new().file(".config/x/conf", "sennit: requires command jq\n");
    let n = f.repo.files.len();
    f.repo.files[n - 1].size = 512 * 1024 + 1;
    assert!(!f.names().contains(&"jq".to_string()));
}

#[test]
fn annotations_are_looked_for_so_deep() {
    let f = Fixture::new()
        .file(".config/1/2/3/4/5/6/in", "sennit: requires command in8\n")
        .file(".config/1/2/3/4/5/6/7/out", "sennit: requires command out9\n");
    let names = f.names();
    assert!(names.contains(&"in8".to_string()));
    assert!(!names.contains(&"out9".to_string()));
}

#[test]
fn encryption_needs_its_tool() {
    let mut out = vec![];
    encryption_tool(
        &Some(Encryption {
            command: "/opt/bin/age -d {}".to_string(),
            identity: None,
        }),
        &mut out,
    );
    assert_eq!(
        told(&out),
        vec![(
            Kind::Command,
            "age".to_string(),
            "sennit.toml ([encryption])".to_string()
        )]
    );
    let mut out = vec![];
    encryption_tool(&None, &mut out);
    encryption_tool(
        &Some(Encryption {
            command: "".to_string(),
            identity: None,
        }),
        &mut out,
    );
    assert!(out.is_empty());
}

#[test]
fn each_thing_is_required_once_and_in_order() {
    let f = Fixture::new()
        .file(".config/git/config", "pager = delta\ndiffFilter = delta x\n")
        .dir(".config/delta")
        .dir(".config/bat")
        .file(
            ".config/alacritty/alacritty.toml",
            "family = \"B\"\nfamily = \"A\"\n",
        );
    let got = told(&f.scan());
    let names: Vec<(Kind, &str)> = got.iter().map(|(k, n, _)| (*k, n.as_str())).collect();
    assert_eq!(
        names,
        vec![
            (Kind::Command, "alacritty"),
            (Kind::Command, "bat"),
            (Kind::Command, "delta"),
            (Kind::Command, "git"),
            (Kind::Font, "A"),
            (Kind::Font, "B"),
        ]
    );
    // Of several places the first detector's is told.
    assert_eq!(got[2].2, ".config/git/config (pager)");
}

fn requirement(kind: Kind, name: &str) -> Requirement {
    Requirement {
        kind,
        name: name.to_string(),
        source: "here".to_string(),
    }
}

#[test]
fn requirements_are_held_against_declarations() {
    let mut t = Table::new();
    t.insert("bat".to_string(), Package::default());
    t.insert(
        "kubectl".to_string(),
        Package {
            optional: true,
            ..Default::default()
        },
    );
    t.insert(
        "font-x".to_string(),
        Package {
            kind: Some("font".to_string()),
            provides: vec!["Cica".to_string(), "Hack".to_string()],
            ..Default::default()
        },
    );
    t.insert(
        "html".to_string(),
        Package {
            kind: Some("extension".to_string()),
            ..Default::default()
        },
    );
    let p = Packages {
        packages: t,
        ignore: Ignore {
            commands: vec!["git".to_string()],
        },
    };
    let provided = p.provided("linux", &vec![]);
    assert_eq!(
        provided.count(),
        [Kind::Command, Kind::Font, Kind::Extension, Kind::Library]
            .iter()
            .map(|k| provided.of(*k).len() as u128)
            .sum::<u128>()
    );
    let required = vec![
        requirement(Kind::Command, "bat"),
        requirement(Kind::Command, "kubectl"),
        requirement(Kind::Command, "git"),
        requirement(Kind::Command, "jq"),
        requirement(Kind::Font, "Cica"),
        requirement(Kind::Font, "bat"),
    ];
    let a = check(&required, &provided);
    let undeclared: Vec<&str> = a.undeclared.iter().map(|r| r.name.as_str()).collect();
    assert_eq!(undeclared, vec!["jq", "bat"]);
    let optional: Vec<&str> = a.optional.iter().map(|r| r.name.as_str()).collect();
    assert_eq!(optional, vec!["kubectl"]);
    assert_eq!(a.unused_fonts, vec!["Hack".to_string()]);
    assert_eq!(a.unused_extensions, vec!["html".to_string()]);
    assert_eq!(standing(&provided, &required[0]), Standing::Declared);
    assert_eq!(standing(&provided, &required[1]), Standing::Optional);
    assert_eq!(standing(&provided, &required[3]), Standing::Undeclared);
    assert_eq!(undeclared_message(2), "2 undeclared dependency(ies)");
    assert_eq!(a.verdict(), Err("2 undeclared dependency(ies)".to_string()));
    let declared = vec![requirement(Kind::Command, "kubectl")];
    let b = check(&declared, &provided);
    assert_eq!(b.optional.len(), 1);
    assert_eq!(b.verdict(), Ok(()));
}
