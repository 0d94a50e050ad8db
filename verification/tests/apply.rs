//! Runs against a file system made of texts.
use sennit::apply::{backup_path, conclude, jobs, note, script, Act, Op, Tally};
use sennit::encrypted::Encryption;
use sennit::generate::{
    decrypt_step, needs_note, no_key_note, output_mode, render_step, write_step, DecryptStep,
    Place, RenderStep, Rendering, WriteStep,
};
use sennit::hooks::{
    fingerprint, hook_failed, hook_step, next_hook, run_count, Hook, HookStep, Outcome, Seen,
};
use sennit::manifest::{Link, Manifest};
use sennit::modes::{mode_refused, mode_step, Fact, ModeStep};
use sennit::path::path_within;
use sennit::plan::{candidates, Found, Listing, Plan};
use sennit::provider::{providers_in_use, Provider, SecretCache};
use sennit::rollback::{
    clearing, restore_count, rollback_message, undoing, verdicts, Clearing, Undo,
};
use sennit::state::State;
use sennit::table::Table;
use sennit::vars::{add_context, Context};
use std::collections::BTreeMap;

const ROOT: &str = "/r";
const HOME: &str = "/h";

#[derive(Clone, Debug, PartialEq)]
enum Node {
    File(String, u32),
    Link(String),
    Dir(u32),
}

/// A repository at `/r`, a home directory at `/h`, and what is recorded.
struct World {
    nodes: BTreeMap<String, Node>,
    manifest: Manifest,
    record: State,
    vars: Table<String>,
    /// How many times each hook ran.
    ran: BTreeMap<String, usize>,
}

fn manifest(common: &[&str]) -> Manifest {
    Manifest {
        link: Link {
            common: common.iter().map(|s| s.to_string()).collect(),
            darwin: vec![],
            linux: vec![],
            ignore: vec![],
        },
        render: Table::new(),
        hooks: Table::new(),
        data: vec![],
        modes: Table::new(),
        providers: Table::new(),
        encrypted: Table::new(),
        encryption: None,
    }
}

fn parent(path: &str) -> String {
    path[..path.rfind('/').unwrap()].to_string()
}

impl World {
    fn new(common: &[&str]) -> Self {
        let mut nodes = BTreeMap::new();
        nodes.insert(ROOT.to_string(), Node::Dir(0o755));
        nodes.insert(HOME.to_string(), Node::Dir(0o755));
        let mut vars = Table::new();
        vars.insert("bg".to_string(), "zzz".to_string());
        add_context(
            &mut vars,
            &Context {
                os: "linux".to_string(),
                hostname: "box".to_string(),
                profiles: vec![],
                env: vec![],
            },
        );
        World {
            nodes,
            manifest: manifest(common),
            record: State::default(),
            vars,
            ran: BTreeMap::new(),
        }
    }

    fn put(&mut self, path: &str, node: Node) {
        let mut dir = parent(path);
        while !dir.is_empty() && !self.nodes.contains_key(&dir) {
            self.nodes.insert(dir.clone(), Node::Dir(0o755));
            dir = parent(&dir);
        }
        self.nodes.insert(path.to_string(), node);
    }

    fn write(&mut self, rel: &str, body: &str) {
        self.put(&format!("{ROOT}/{rel}"), Node::File(body.to_string(), 0o644));
    }

    fn write_home(&mut self, rel: &str, body: &str) {
        self.put(&format!("{HOME}/{rel}"), Node::File(body.to_string(), 0o644));
    }

    fn at_home(&self, rel: &str) -> Option<&Node> {
        self.nodes.get(&format!("{HOME}/{rel}"))
    }

    /// What is read at a path of the home directory, through a link.
    fn reads(&self, rel: &str) -> Option<String> {
        match self.at_home(rel) {
            Some(Node::File(body, _)) => Some(body.clone()),
            Some(Node::Link(to)) => match self.nodes.get(to) {
                Some(Node::File(body, _)) => Some(body.clone()),
                _ => None,
            },
            _ => None,
        }
    }

    fn bodies_at_home(&self) -> Vec<String> {
        self.nodes
            .iter()
            .filter(|(p, _)| path_within(p, HOME))
            .filter_map(|(_, n)| match n {
                Node::File(body, _) => Some(body.clone()),
                _ => None,
            })
            .collect()
    }

    fn found(&self, path: &str) -> Found {
        match self.nodes.get(path) {
            None => Found::Nothing,
            Some(Node::Link(to)) => Found::Link(to.clone()),
            Some(_) => Found::Other,
        }
    }

    fn listing(&self, target: &str) -> Listing {
        let path = format!("{ROOT}/{target}");
        let locked = |n: &Node| matches!(n, Node::Dir(mode) if mode & 0o500 != 0o500);
        if self.nodes.iter().any(|(p, n)| path_within(p, &path) && locked(n)) {
            return Listing::Unreadable;
        }
        match self.nodes.get(&path) {
            None => Listing::Absent,
            Some(Node::File(..)) => Listing::File,
            Some(Node::Link(_)) => Listing::Absent,
            Some(Node::Dir(_)) => Listing::Directory(
                self.nodes
                    .iter()
                    .filter(|(p, n)| path_within(p, &path) && matches!(n, Node::File(..)))
                    .map(|(p, _)| p[ROOT.len() + 1..].to_string())
                    .collect(),
            ),
        }
    }

    fn place(&self, out: &str) -> Place {
        let path = format!("{ROOT}/{out}");
        if let Some(Node::Link(_)) = self.nodes.get(&parent(&path)) {
            return Place::Outside;
        }
        match self.nodes.get(&path) {
            None => Place::Free,
            Some(Node::File(..)) => Place::File,
            Some(Node::Link(_)) => Place::Link,
            Some(Node::Dir(_)) => Place::Directory,
        }
    }

    /// Generates outputs; what is still to come, and what is left for later.
    fn generate(
        &mut self,
        secrets: bool,
        dry_run: bool,
    ) -> Result<(Vec<String>, Vec<String>), String> {
        let mut pending = vec![];
        let mut notes = vec![];
        let key = match &self.manifest.encryption {
            Some(e) => match e.identity_path(Some(HOME)) {
                Some(p) => self.nodes.contains_key(&p),
                None => false,
            },
            None => false,
        };
        let step = match decrypt_step(&self.manifest, key) {
            Ok(s) => s.carried_out(dry_run),
            Err(e) => return Err(e.message()),
        };
        for i in 0..self.manifest.encrypted.len() {
            let out = self.manifest.encrypted.key(i).clone();
            let src = self.manifest.encrypted.value(i).clone();
            match step {
                DecryptStep::Nothing => {}
                DecryptStep::Deferred => notes.push(no_key_note(&out)),
                DecryptStep::Pending => pending.push(out),
                DecryptStep::Decrypt => {
                    let body = match self.nodes.get(&format!("{ROOT}/{src}")) {
                        Some(Node::File(body, _)) => body.clone(),
                        _ => return Err(format!("no {src}")),
                    };
                    let mode = output_mode(&self.manifest, &out, true);
                    self.put(&format!("{ROOT}/{out}"), Node::File(body, mode));
                }
            }
        }
        let mut declared = Table::new();
        for i in 0..self.manifest.providers.len() {
            let p = self.manifest.providers.value(i);
            declared.insert(
                self.manifest.providers.key(i).clone(),
                Provider {
                    command: p.command.clone(),
                    trim: p.trim,
                },
            );
        }
        let mut cache = SecretCache::with(providers_in_use(declared));
        for i in 0..self.manifest.render.len() {
            let out = self.manifest.render.key(i).clone();
            let source = self.manifest.render.value(i).clone();
            let template = match self.nodes.get(&format!("{ROOT}/{source}")) {
                Some(Node::File(body, _)) => body.clone(),
                _ => return Err(format!("no {source}")),
            };
            let output = Rendering {
                out: out.clone(),
                source,
                template,
            };
            loop {
                let step = match render_step(&self.manifest, &output, &self.vars, &cache, secrets) {
                    Ok(s) => s.carried_out(dry_run),
                    Err(e) => return Err(e.message()),
                };
                match step {
                    RenderStep::Deferred(schemes) => {
                        notes.push(needs_note(&out, &schemes));
                        break;
                    }
                    RenderStep::Pending => {
                        pending.push(out);
                        break;
                    }
                    RenderStep::Read(refs) => {
                        for r in refs {
                            let words = match cache.command(&r) {
                                Ok(w) => w,
                                Err(e) => return Err(e.message()),
                            };
                            // Every provider here is `echo`.
                            cache.learn(&r, &format!("{}\n", words[1..].join(" ")));
                        }
                    }
                    RenderStep::Write { text, mode } => {
                        let path = format!("{ROOT}/{out}");
                        let current = match self.nodes.get(&path) {
                            Some(Node::File(body, _)) => Some(body.clone().into_bytes()),
                            _ => None,
                        };
                        let contents = text.clone().into_bytes();
                        match write_step(&out, self.place(&out), &current, &contents) {
                            WriteStep::Refused(why) => return Err(why),
                            WriteStep::Unchanged => {}
                            WriteStep::Write => self.put(&path, Node::File(text, mode)),
                        }
                        break;
                    }
                }
            }
        }
        Ok((pending, notes))
    }

    fn plan(&self, pending: &Vec<String>) -> Result<Plan, String> {
        let targets = self.manifest.targets("linux");
        let listings = targets.iter().map(|t| self.listing(t)).collect();
        let rels = match candidates(&self.manifest, &targets, &listings, pending) {
            Ok(rels) => rels,
            Err(e) => return Err(e.message()),
        };
        let found = rels
            .iter()
            .map(|r| self.found(&format!("{HOME}/{r}")))
            .collect();
        Ok(Plan::build(ROOT, HOME, &rels, &found))
    }

    fn modes(&mut self, dry_run: bool) -> Result<(), String> {
        for i in 0..self.manifest.modes.len() {
            let rel = self.manifest.modes.key(i).clone();
            let declared = match self.manifest.declared_mode(&rel) {
                Some(m) => m,
                None => continue,
            };
            let path = format!("{ROOT}/{rel}");
            let fact = match self.nodes.get(&path) {
                None | Some(Node::Link(_)) => Fact::Absent,
                Some(Node::File(_, m)) => Fact::File(*m),
                Some(Node::Dir(m)) => Fact::Directory(*m),
            };
            match mode_step(declared, &fact).carried_out(dry_run) {
                ModeStep::Nothing => {}
                ModeStep::Refused => return Err(mode_refused(&rel, declared)),
                ModeStep::Unreadable => return Err(rel),
                ModeStep::Change => match self.nodes.get_mut(&path) {
                    Some(Node::File(_, m)) | Some(Node::Dir(m)) => *m = declared,
                    _ => {}
                },
            }
        }
        Ok(())
    }

    fn perform(&mut self, op: Op) -> Result<Option<(String, String)>, String> {
        match op {
            Op::Parent(dest) => {
                let mut dir = parent(&dest);
                while !dir.is_empty() {
                    match self.nodes.get(&dir) {
                        None => {
                            self.nodes.insert(dir.clone(), Node::Dir(0o755));
                        }
                        Some(Node::File(..)) => return Err(format!("{dir} is not a directory")),
                        Some(_) => {}
                    }
                    dir = parent(&dir);
                }
            }
            Op::Unlink(dest) => {
                assert!(matches!(self.nodes.remove(&dest), Some(Node::Link(_))));
            }
            Op::Aside(dest) => {
                let taken = self.nodes.keys().cloned().collect();
                let kept = match backup_path(&dest, &taken) {
                    Ok(p) => p,
                    Err(e) => return Err(e.message()),
                };
                let node = self.nodes.remove(&dest).unwrap();
                self.nodes.insert(kept.clone(), node);
                return Ok(Some((dest, kept)));
            }
            Op::Discard(dest) => {
                self.nodes.retain(|p, _| !path_within(p, &dest));
            }
            Op::Place { src, dest } => {
                assert!(!self.nodes.contains_key(&dest), "{dest} is there");
                self.nodes.insert(dest, Node::Link(src));
            }
            Op::Note(_) => {}
        }
        Ok(None)
    }

    fn apply_with(&mut self, dry_run: bool, backup: bool, secrets: bool) -> Result<String, String> {
        if let Err(e) = self.manifest.validate() {
            return Err(e.message());
        }
        let mut said = String::new();
        let (pending, notes) = self.generate(secrets, dry_run)?;
        let deferred = notes.len();
        for note in notes {
            said.push_str(&format!("deferred {note}\n"));
        }
        let plan = self.plan(&pending)?;
        let current = plan.rels();
        let stale = self.record.stale(&current);
        let found = stale
            .iter()
            .map(|r| self.found(&format!("{HOME}/{r}")))
            .collect();
        let todo = jobs(ROOT, HOME, &stale, &found, &plan, backup);
        for j in &todo {
            if j.act != Act::Forget {
                said.push_str(&format!("{} {}\n", j.act.verb(), j.rel));
            }
        }
        for op in script(&todo, dry_run) {
            let done = match &op {
                Op::Note(i) => Some(*i),
                _ => None,
            };
            if let Some((dest, kept)) = self.perform(op)? {
                self.record.moved(&dest, &kept);
            }
            if let Some(i) = done {
                note(&mut self.record, &todo[i]);
            }
        }
        self.modes(dry_run)?;
        let mut prints = vec![];
        let mut outcomes = vec![];
        while let Some(i) = next_hook(&self.manifest.hooks, &outcomes) {
            let hook = self.manifest.hooks.value(i);
            let seen = hook
                .when_changed
                .iter()
                .filter_map(|w| match self.nodes.get(&format!("{ROOT}/{w}")) {
                    Some(Node::File(body, _)) => Some(Seen {
                        path: w.clone(),
                        depth: 0,
                        modified: 1,
                        size: body.len() as u64,
                    }),
                    _ => None,
                })
                .collect();
            let print = fingerprint(&seen);
            let step = hook_step(
                &self.manifest.hooks,
                i,
                &print,
                &self.record.hooks,
                dry_run,
            );
            let outcome = match step {
                HookStep::Skip => Outcome::Skipped,
                HookStep::Preview => Outcome::Previewed,
                HookStep::Run => {
                    let run = hook.run.clone();
                    if run != "true" && !run.starts_with("grow ") {
                        Outcome::Failed
                    } else {
                        let name = self.manifest.hooks.key(i).clone();
                        *self.ran.entry(name).or_insert(0) += 1;
                        said.push_str("hook\n");
                        // `grow x` makes the file `x` of the repository longer.
                        if let Some(rel) = run.strip_prefix("grow ") {
                            self.write(rel, "longer than before\n");
                        }
                        Outcome::Succeeded
                    }
                }
            };
            prints.push(print);
            outcomes.push(outcome);
        }
        let hooks = &self.manifest.hooks;
        let end = conclude(
            &mut self.record,
            current,
            &todo,
            hooks,
            &prints,
            &outcomes,
            dry_run,
        );
        if let Err(i) = end {
            return Err(hook_failed(hooks.key(i), hooks.value(i)));
        }
        let tally = Tally::of(plan.entries.len(), &todo, deferred, run_count(&outcomes));
        said.push_str(&tally.message(dry_run));
        Ok(said)
    }

    fn apply(&mut self) -> Result<String, String> {
        self.apply_with(false, true, false)
    }

    fn rollback(&mut self, dry_run: bool) -> String {
        let kept: Vec<bool> = self
            .record
            .backups
            .iter()
            .map(|b| self.nodes.contains_key(&b.kept_at))
            .collect();
        let decided = verdicts(&self.record.backups, &kept);
        let message = rollback_message(
            self.record.backups.len(),
            restore_count(&decided),
            dry_run,
        );
        let backups: Vec<(String, String)> = self
            .record
            .backups
            .iter()
            .map(|b| (b.dest.clone(), b.kept_at.clone()))
            .collect();
        for undo in undoing(&decided, dry_run) {
            let (dest, kept_at) = match undo {
                Undo::Restore(i) => &backups[i],
                Undo::Forget => {
                    self.record.rolled_back();
                    continue;
                }
            };
            match clearing(&self.found(dest)) {
                Clearing::Nothing => {}
                Clearing::RemoveLink => {
                    self.nodes.remove(dest);
                }
                Clearing::MoveAside => {
                    let taken = self.nodes.keys().cloned().collect();
                    let to = match backup_path(dest, &taken) {
                        Ok(p) => p,
                        Err(e) => panic!("{}", e.message()),
                    };
                    let node = self.nodes.remove(dest).unwrap();
                    self.nodes.insert(to, node);
                }
            }
            let node = self.nodes.remove(kept_at).unwrap();
            self.nodes.insert(dest.clone(), node);
        }
        message
    }
}

fn ok(r: Result<String, String>) -> String {
    match r {
        Ok(s) => s,
        Err(e) => panic!("{e}"),
    }
}

fn rendered(common: &[&str], out: &str, template: &str) -> World {
    let mut w = World::new(common);
    w.manifest.link.ignore = vec!["*.tmpl".to_string()];
    w.manifest
        .render
        .insert(out.to_string(), format!("{out}.tmpl"));
    w.write(&format!("{out}.tmpl"), template);
    w
}

fn provider(w: &mut World, scheme: &str) {
    w.manifest.providers.insert(
        scheme.to_string(),
        Provider {
            command: "echo {}".to_string(),
            trim: true,
        },
    );
}

fn hook(w: &mut World, name: &str, run: &str) {
    w.manifest.hooks.insert(
        name.to_string(),
        Hook {
            when_changed: vec![],
            run: run.to_string(),
            cwd: None,
        },
    );
}

#[test]
fn dry_run_writes_nothing() {
    let mut w = rendered(&["a.conf", "gen.conf"], "gen.conf", "x = {{ bg }}\n");
    w.write("a.conf", "plain\n");
    let before = w.nodes.clone();
    let out = ok(w.apply_with(true, true, false));
    assert!(out.contains("nothing written"), "{out}");
    assert_eq!(w.nodes, before);
    assert!(out.contains("2 change(s)"), "{out}");
    assert!(w.record.links.is_empty());
}

#[test]
fn dry_run_previews_what_apply_will_link() {
    let mut w = rendered(&["a.conf", "gen.conf"], "gen.conf", "x = {{ bg }}\n");
    w.write("a.conf", "plain\n");
    let preview = ok(w.apply_with(true, true, false));
    assert!(preview.contains("link gen.conf"), "{preview}");
    let real = ok(w.apply());
    assert!(real.contains("2 link(s) updated"), "{real}");
}

#[test]
fn a_backup_survives_a_later_apply() {
    let mut w = World::new(&["a.conf"]);
    w.write("a.conf", "repo\n");
    w.write("b.conf", "repo b\n");
    w.write_home("a.conf", "MINE\n");
    ok(w.apply());
    w.manifest.link.common.push("b.conf".to_string());
    ok(w.apply());
    let out = w.rollback(false);
    assert!(out.contains("1 file(s) restored"), "{out}");
    assert_eq!(w.reads("a.conf").unwrap(), "MINE\n");
}

#[test]
fn rollback_does_not_destroy_an_older_backup() {
    let mut w = World::new(&["a.conf"]);
    w.write("a.conf", "repo\n");
    w.write_home("a.conf", "FIRST\n");
    ok(w.apply());
    w.write_home("a.conf", "SECOND\n");
    ok(w.apply());
    w.rollback(false);
    assert_eq!(w.reads("a.conf").unwrap(), "SECOND\n");
    assert!(w.bodies_at_home().contains(&"FIRST\n".to_string()));
}

#[test]
fn a_failing_hook_does_not_strand_a_backup() {
    let mut w = World::new(&["a.conf"]);
    hook(&mut w, "boom", "exit 1");
    w.write("a.conf", "repo\n");
    w.write_home("a.conf", "MINE\n");
    assert_eq!(w.apply(), Err("hook `boom` failed: exit 1".to_string()));
    w.rollback(false);
    assert_eq!(w.reads("a.conf").unwrap(), "MINE\n");
}

#[test]
fn prune_leaves_a_foreign_link_alone() {
    let mut w = World::new(&["a.conf"]);
    w.write("a.conf", "repo\n");
    ok(w.apply());
    w.write_home("elsewhere.conf", "theirs\n");
    w.put("/h/a.conf", Node::Link("/h/elsewhere.conf".to_string()));
    w.manifest.link.common.clear();
    let out = ok(w.apply());
    assert!(out.contains("left alone"), "{out}");
    assert_eq!(
        w.at_home("a.conf"),
        Some(&Node::Link("/h/elsewhere.conf".to_string()))
    );
}

#[test]
fn prune_removes_a_link_it_made() {
    let mut w = World::new(&["a.conf"]);
    w.write("a.conf", "repo\n");
    ok(w.apply());
    assert!(w.at_home("a.conf").is_some());
    w.manifest.link.common.clear();
    let out = ok(w.apply());
    assert!(out.contains("prune"), "{out}");
    assert!(w.at_home("a.conf").is_none());
}

#[test]
fn an_unreadable_directory_fails_instead_of_pruning() {
    let mut w = World::new(&["conf"]);
    w.write("conf/a.conf", "a\n");
    w.write("conf/b.conf", "b\n");
    ok(w.apply());
    w.put("/r/conf", Node::Dir(0o000));
    let out = w.apply();
    w.put("/r/conf", Node::Dir(0o755));
    assert!(out.is_err(), "an unreadable directory should fail");
    assert_eq!(out.unwrap_err(), "failed to read conf");
    assert!(w.at_home("conf/a.conf").is_some());
    assert!(w.at_home("conf/b.conf").is_some());
}

#[test]
fn an_unreadable_file_is_not_treated_as_removed() {
    let mut w = World::new(&["conf"]);
    w.write("conf/sub/b.conf", "b\n");
    ok(w.apply());
    w.put("/r/conf/sub", Node::Dir(0o600));
    let out = w.apply();
    w.put("/r/conf/sub", Node::Dir(0o755));
    assert!(
        out.is_err(),
        "an unreadable file should be an error, not a prune: {out:?}"
    );
    assert!(w.at_home("conf/sub/b.conf").is_some(), "the link was pruned");
}

#[test]
fn a_template_is_never_placed_even_without_ignore() {
    let mut w = rendered(&["conf"], "conf/app.conf", "x = {{ bg }}\n");
    w.manifest.link.ignore.clear();
    ok(w.apply());
    assert!(w.at_home("conf/app.conf.tmpl").is_none());
    assert_eq!(w.reads("conf/app.conf").unwrap(), "x = zzz\n");
}

#[test]
fn generated_files_are_read_only() {
    let mut w = rendered(&["gen.conf"], "gen.conf", "x = {{ bg }}\n");
    ok(w.apply());
    assert_eq!(
        w.nodes.get("/r/gen.conf"),
        Some(&Node::File("x = zzz\n".to_string(), 0o444))
    );
    w.manifest
        .modes
        .insert("gen.conf".to_string(), "644".to_string());
    ok(w.apply());
    assert_eq!(
        w.nodes.get("/r/gen.conf"),
        Some(&Node::File("x = zzz\n".to_string(), 0o644))
    );
}

#[test]
fn a_deferred_output_is_not_linked() {
    let mut w = rendered(&["secret.conf"], "secret.conf", "token = {{ never://a/b }}\n");
    provider(&mut w, "never");
    let out = ok(w.apply());
    assert!(out.contains("deferred"), "{out}");
    assert!(w.at_home("secret.conf").is_none());
    assert!(!out.contains("already up to date"), "{out}");
}

#[test]
fn a_secret_behind_a_false_condition_does_not_defer() {
    let mut w = rendered(
        &["gen.conf"],
        "gen.conf",
        "x = {{ bg }}\n{{ if sennit.os == \"no-such-os\" }}t = {{ never://a/b }}\n{{ end }}",
    );
    provider(&mut w, "never");
    let out = ok(w.apply());
    assert!(!out.contains("deferred"), "{out}");
    assert_eq!(w.reads("gen.conf").unwrap(), "x = zzz\n");
}

#[test]
fn a_secret_is_fetched_with_secrets_and_written_private() {
    let mut w = rendered(&["conf"], "conf", "token = {{ fake://hello }}\n");
    provider(&mut w, "fake");
    ok(w.apply_with(false, true, true));
    assert_eq!(w.reads("conf").unwrap(), "token = hello\n");
    assert_eq!(
        w.nodes.get("/r/conf"),
        Some(&Node::File("token = hello\n".to_string(), 0o400))
    );
}

#[test]
fn rollback_undoes_a_backup() {
    let mut w = World::new(&["a.conf", "dir/b.conf"]);
    w.write("a.conf", "repo\n");
    w.write("dir/b.conf", "repo b\n");
    w.write_home("a.conf", "MINE\n");
    w.write_home("dir/b.conf", "MINE TOO\n");
    let before = w.nodes.clone();
    ok(w.apply());
    assert_ne!(w.nodes, before);
    assert!(w.bodies_at_home().contains(&"MINE\n".to_string()));
    assert!(w.bodies_at_home().contains(&"MINE TOO\n".to_string()));
    assert_eq!(w.rollback(false), "2 file(s) restored");
    assert_eq!(w.nodes, before);
}

#[test]
fn rollback_is_idempotent() {
    let mut w = World::new(&["a.conf"]);
    w.write("a.conf", "repo\n");
    for body in ["FIRST\n", "SECOND\n", "THIRD\n"] {
        w.write_home("a.conf", body);
        ok(w.apply());
    }
    w.rollback(false);
    assert_eq!(w.reads("a.conf").unwrap(), "THIRD\n");
    let out = w.rollback(false);
    assert!(out.contains("nothing to roll back"), "{out}");
    assert_eq!(w.reads("a.conf").unwrap(), "THIRD\n");
    let bodies = w.bodies_at_home();
    for want in ["FIRST\n", "SECOND\n"] {
        assert!(bodies.contains(&want.to_string()), "{want:?} was destroyed");
    }
}

#[test]
fn a_generated_output_is_not_written_through_a_symlink() {
    let mut w = rendered(&["gen.conf"], "gen.conf", "x = {{ bg }}\n");
    w.put("/o/victim", Node::File("PRECIOUS\n".to_string(), 0o644));
    w.put("/r/gen.conf", Node::Link("/o/victim".to_string()));
    assert_eq!(
        w.apply(),
        Err("gen.conf is a symlink; refusing to write through it".to_string())
    );
    assert_eq!(
        w.nodes.get("/o/victim"),
        Some(&Node::File("PRECIOUS\n".to_string(), 0o644))
    );
}

#[test]
fn a_generated_output_cannot_escape_through_a_symlinked_parent() {
    let mut w = rendered(&["out"], "out/gen.conf", "x = {{ bg }}\n");
    w.nodes.remove("/r/out/gen.conf.tmpl");
    w.nodes
        .insert("/r/out".to_string(), Node::Link("/outside".to_string()));
    w.manifest
        .render
        .insert("out/gen.conf".to_string(), "gen.conf.tmpl".to_string());
    w.write("gen.conf.tmpl", "x = {{ bg }}\n");
    assert_eq!(
        w.apply(),
        Err("out/gen.conf is outside the repository; refusing to write there".to_string())
    );
}

#[test]
fn a_generated_output_is_not_written_over_a_directory() {
    let mut w = rendered(&["gen.conf"], "gen.conf", "x = {{ bg }}\n");
    w.write("gen.conf/inner", "inner\n");
    assert_eq!(
        w.apply(),
        Err("gen.conf is a directory; refusing to write over it".to_string())
    );
    assert_eq!(w.nodes.get("/r/gen.conf"), Some(&Node::Dir(0o755)));
}

#[test]
fn rollback_does_not_destroy_what_is_at_the_destination() {
    let mut w = World::new(&["a.conf"]);
    w.write("a.conf", "repo\n");
    w.write_home("a.conf", "ORIGINAL\n");
    ok(w.apply());
    w.write_home("a.conf", "NEW WORK\n");
    w.rollback(false);
    assert_eq!(w.reads("a.conf").unwrap(), "ORIGINAL\n");
    assert!(w.bodies_at_home().contains(&"NEW WORK\n".to_string()));
}

#[test]
fn a_backup_is_recorded_before_anything_else_can_fail() {
    let mut w = World::new(&["a.conf", "zz"]);
    w.write("a.conf", "repo\n");
    w.write("zz/b.conf", "b\n");
    w.write_home("a.conf", "MINE\n");
    w.write_home("zz", "not a directory\n");
    assert!(w.apply().is_err());
    w.rollback(false);
    assert_eq!(w.reads("a.conf").unwrap(), "MINE\n");
}

#[test]
fn no_backup_replaces_without_keeping_a_copy() {
    let mut w = World::new(&["a.conf"]);
    w.write("a.conf", "repo\n");
    w.write_home("a.conf", "MINE\n");
    let out = ok(w.apply_with(false, false, false));
    assert!(out.contains("replace"), "{out}");
    assert_eq!(w.reads("a.conf").unwrap(), "repo\n");
    let out = w.rollback(false);
    assert!(out.contains("nothing to roll back"), "{out}");
}

#[test]
fn an_encrypted_file_is_decrypted_and_kept_private() {
    let mut w = World::new(&["secret"]);
    w.write("secret.age", "PLAINTEXT\n");
    w.manifest
        .encrypted
        .insert("secret".to_string(), "secret.age".to_string());
    w.manifest.encryption = Some(Encryption {
        command: "cat {}".to_string(),
        identity: None,
    });
    ok(w.apply());
    assert_eq!(w.reads("secret").unwrap(), "PLAINTEXT\n");
    assert_eq!(
        w.nodes.get("/r/secret"),
        Some(&Node::File("PLAINTEXT\n".to_string(), 0o400))
    );
}

#[test]
fn an_encrypted_file_is_deferred_without_its_key() {
    let mut w = World::new(&["secret"]);
    w.write("secret.age", "PLAINTEXT\n");
    w.manifest
        .encrypted
        .insert("secret".to_string(), "secret.age".to_string());
    w.manifest.encryption = Some(Encryption {
        command: "cat {}".to_string(),
        identity: Some("/nonexistent/key.txt".to_string()),
    });
    let out = ok(w.apply());
    assert!(out.contains("no decryption key"), "{out}");
    assert!(w.at_home("secret").is_none());
}

#[test]
fn encrypted_files_need_a_way_to_open_them() {
    let mut w = World::new(&["secret"]);
    w.manifest
        .encrypted
        .insert("secret".to_string(), "secret.age".to_string());
    assert_eq!(
        w.apply(),
        Err("encrypted files are declared but [encryption] is not".to_string())
    );
}

#[test]
fn apply_does_not_claim_nothing_happened_after_running_a_hook() {
    let mut w = World::new(&["a.conf"]);
    hook(&mut w, "always", "true");
    w.write("a.conf", "repo\n");
    ok(w.apply());
    let out = ok(w.apply());
    assert!(out.contains("hook"), "{out}");
    assert!(!out.contains("already up to date"), "{out}");
    assert_eq!(w.ran.get("always"), Some(&2));
}

#[test]
fn applying_twice_changes_nothing() {
    let mut w = World::new(&["a.conf"]);
    w.write("a.conf", "repo\n");
    assert_eq!(ok(w.apply()), "link a.conf\n1 link(s) updated, 0 pruned");
    let before = w.nodes.clone();
    assert_eq!(ok(w.apply()), "already up to date (1 links)");
    assert_eq!(w.nodes, before);
}

#[test]
fn a_moved_file_is_told() {
    let mut w = World::new(&["a.conf"]);
    w.write("a.conf", "repo\n");
    w.write_home("a.conf", "MINE\n");
    assert_eq!(
        ok(w.apply()),
        "backup a.conf\n1 link(s) updated, 0 pruned\n1 file(s) moved aside; `sennit rollback` puts them back"
    );
    assert!(w.at_home("a.conf.sennit-backup").is_some());
}

#[test]
fn dry_run_refuses_a_directory_mode_that_locks_you_out() {
    let mut w = World::new(&[".ssh"]);
    w.write(".ssh/config", "Host x\n");
    w.manifest
        .modes
        .insert(".ssh".to_string(), "600".to_string());
    assert!(w.apply_with(true, true, false).is_err());
}

#[test]
fn links_are_recorded_even_if_a_later_step_fails() {
    let mut w = World::new(&["a.conf", ".ssh"]);
    w.write("a.conf", "repo\n");
    w.write(".ssh/config", "Host x\n");
    w.manifest
        .modes
        .insert(".ssh".to_string(), "600".to_string());
    assert!(w.apply().is_err());
    assert!(w.at_home("a.conf").is_some());
    w.manifest = manifest(&[]);
    let out = ok(w.apply());
    assert!(out.contains("prune"), "the link was never recorded:\n{out}");
    assert!(w.at_home("a.conf").is_none());
}

#[test]
fn a_link_placed_before_a_failure_is_still_recorded() {
    let mut w = World::new(&["a.conf", "zz"]);
    w.write("a.conf", "repo\n");
    w.write("zz/b.conf", "b\n");
    w.write_home("zz", "a file, not a directory\n");
    assert!(w.apply().is_err());
    assert!(w.at_home("a.conf").is_some());
    w.manifest = manifest(&[]);
    let out = ok(w.apply());
    assert!(out.contains("prune"), "the link was never recorded:\n{out}");
    assert!(w.at_home("a.conf").is_none());
}

#[test]
fn rollback_does_not_claim_to_restore_a_backup_that_is_gone() {
    let mut w = World::new(&["a.conf"]);
    w.write("a.conf", "repo\n");
    w.write_home("a.conf", "MINE\n");
    ok(w.apply());
    w.nodes.remove("/h/a.conf.sennit-backup");
    let out = w.rollback(true);
    assert!(!out.contains("1 file(s) would be restored"), "{out}");
    let out = w.rollback(false);
    assert!(!out.contains("1 file(s) restored"), "{out}");
    assert!(
        out.contains("already gone") || out.contains("nothing to put back"),
        "{out}"
    );
}

#[test]
fn backups_have_their_own_names() {
    let taken = |names: &[&str]| -> Vec<String> { names.iter().map(|s| s.to_string()).collect() };
    let name = |t: &Vec<String>| backup_path("/h/a", t).ok();
    assert_eq!(name(&taken(&[])).as_deref(), Some("/h/a.sennit-backup"));
    assert_eq!(
        name(&taken(&["/h/a.sennit-backup"])).as_deref(),
        Some("/h/a.sennit-backup.1")
    );
    assert_eq!(
        name(&taken(&["/h/a.sennit-backup", "/h/a.sennit-backup.2"])).as_deref(),
        Some("/h/a.sennit-backup.1")
    );
    let mut all = vec!["/h/a.sennit-backup".to_string()];
    for n in 1..999 {
        all.push(format!("/h/a.sennit-backup.{n}"));
    }
    assert_eq!(name(&all).as_deref(), Some("/h/a.sennit-backup.999"));
    all.push("/h/a.sennit-backup.999".to_string());
    match backup_path("/h/a", &all) {
        Ok(p) => panic!("{p} is taken"),
        Err(e) => assert_eq!(e.message(), "too many backups next to /h/a"),
    }
}

#[test]
fn a_link_elsewhere_is_replaced() {
    let mut w = World::new(&["a.conf"]);
    w.write("a.conf", "repo\n");
    w.put("/h/a.conf", Node::Link("/r/old.conf".to_string()));
    let out = ok(w.apply());
    assert!(out.contains("relink a.conf"), "{out}");
    assert_eq!(w.reads("a.conf").unwrap(), "repo\n");
}

#[test]
fn a_directory_in_the_way_is_moved_whole() {
    let mut w = World::new(&["a"]);
    w.write("a", "repo\n");
    w.write_home("a/inner", "MINE\n");
    // Only the directory itself moves in this small file system.
    w.nodes.remove("/h/a/inner");
    ok(w.apply());
    assert_eq!(
        w.at_home("a.sennit-backup"),
        Some(&Node::Dir(0o755))
    );
}

#[test]
fn the_plan_is_in_the_order_of_paths() {
    let mut w = World::new(&["b", "a"]);
    w.write("b/y", "");
    w.write("b.x", "");
    w.write("a", "");
    w.write("b/x/z", "");
    w.manifest.link.common.push("b.x".to_string());
    let rels = w.plan(&vec![]).unwrap().rels();
    assert_eq!(rels, vec!["a", "b/x/z", "b/y", "b.x"]);
}

#[test]
fn differences_are_told() {
    let mut w = World::new(&["a", "b", "c", "d"]);
    for rel in ["a", "b", "c", "d"] {
        w.write(rel, "repo\n");
    }
    w.put("/h/b", Node::Link("/r/old".to_string()));
    w.write_home("c", "MINE\n");
    w.put("/h/d", Node::Link("/r/d".to_string()));
    let plan = w.plan(&vec![]).unwrap();
    let told: Vec<(&str, &str, String)> = plan
        .entries
        .iter()
        .map(|e| (e.state.mark(), e.state.sign(), e.difference()))
        .collect();
    assert_eq!(
        told,
        vec![
            ("--", "+", "a".to_string()),
            ("~~", "~", "b\n    now -> /r/old\n    new -> /r/b".to_string()),
            (
                "!!",
                "!",
                "c  (not a symlink; would be replaced)".to_string()
            ),
            ("ok", "", "d".to_string()),
        ]
    );
    assert_eq!(plan.diff_message(), "3 change(s)");
    assert_eq!(plan.list_message(), "4 link(s), 3 need change");
    assert_eq!(plan.changes().len(), 3);
    assert!(!plan.entries[3].state.needs_change());
    ok(w.apply());
    assert_eq!(
        w.plan(&vec![]).unwrap().diff_message(),
        "no changes (4 links already in place)"
    );
}

#[test]
fn a_stale_path_counts_though_its_link_is_gone() {
    let mut w = World::new(&["a.conf"]);
    w.write("a.conf", "repo\n");
    ok(w.apply());
    w.manifest.link.common.clear();
    w.nodes.remove("/h/a.conf");
    assert_eq!(
        ok(w.apply_with(true, true, false)),
        "0 change(s), 1 prune(s), nothing written (--dry-run)"
    );
    assert_eq!(ok(w.apply()), "0 link(s) updated, 1 pruned");
    assert_eq!(ok(w.apply()), "already up to date (0 links)");
}

#[test]
fn a_dry_run_touches_nothing() {
    let mut w = rendered(&["a.conf", "gen.conf"], "gen.conf", "x = {{ op://a/b }}\n");
    provider(&mut w, "op");
    w.write("a.conf", "repo\n");
    w.write_home("a.conf", "MINE\n");
    w.manifest.modes.insert("a.conf".to_string(), "600".to_string());
    hook(&mut w, "always", "true");
    let before = w.nodes.clone();
    let out = ok(w.apply_with(true, true, true));
    assert!(out.contains("2 change(s), 0 prune(s), nothing written"), "{out}");
    assert_eq!(w.nodes, before);
    assert!(w.ran.is_empty());
    assert!(w.record.links.is_empty());
    assert!(w.record.hooks.is_empty());
    ok(w.apply_with(false, true, true));
    let placed = w.nodes.clone();
    assert_ne!(placed, before);
    assert_eq!(w.ran.get("always"), Some(&1));
    assert_eq!(w.rollback(true), "1 file(s) would be restored (--dry-run)");
    assert_eq!(w.nodes, placed);
    assert_eq!(w.record.backups.len(), 1);
}

#[test]
fn a_failing_hook_stops_the_others() {
    let mut w = World::new(&["a.conf"]);
    w.write("a.conf", "repo\n");
    hook(&mut w, "a", "true");
    hook(&mut w, "b", "false");
    hook(&mut w, "c", "true");
    assert_eq!(w.apply().unwrap_err(), "hook `b` failed: false");
    assert_eq!(w.ran.get("a"), Some(&1));
    assert_eq!(w.ran.get("c"), None);
    // A run that failed records no hook.
    assert!(w.record.hooks.is_empty());
}

fn watch(w: &mut World, name: &str, path: &str, run: &str) {
    w.manifest.hooks.insert(
        name.to_string(),
        Hook {
            when_changed: vec![path.to_string()],
            run: run.to_string(),
            cwd: None,
        },
    );
}

#[test]
fn what_a_hook_changes_counts_for_a_later_one() {
    let mut w = World::new(&[]);
    w.write("seed", "1");
    w.write("built", "1");
    watch(&mut w, "a", "seed", "grow built");
    watch(&mut w, "b", "built", "true");
    ok(w.apply());
    assert_eq!((w.ran["a"], w.ran["b"]), (1, 1));
    // Only `seed` changes; `b` sees what `a` does about it in the same run.
    w.write("seed", "12");
    w.write("built", "1");
    let mut record = Table::new();
    record.insert("a".to_string(), w.record.hooks.get("a").unwrap().clone());
    let short = vec![Seen {
        path: "built".to_string(),
        depth: 0,
        modified: 1,
        size: 1,
    }];
    record.insert("b".to_string(), fingerprint(&short));
    w.record.hooks = record;
    ok(w.apply());
    assert_eq!((w.ran["a"], w.ran["b"]), (2, 2));
    ok(w.apply());
    assert_eq!((w.ran["a"], w.ran["b"]), (2, 2));
}

#[test]
fn a_run_without_anything_to_do_records_nothing() {
    let mut w = World::new(&["a.conf"]);
    w.write("a.conf", "repo\n");
    // Somebody else placed the link.
    w.put("/h/a.conf", Node::Link("/r/a.conf".to_string()));
    assert_eq!(ok(w.apply()), "already up to date (1 links)");
    assert!(w.record.links.is_empty());
    w.manifest.link.common.clear();
    assert_eq!(ok(w.apply()), "already up to date (0 links)");
    assert!(w.at_home("a.conf").is_some());
    // A run that does something records every link of its plan.
    w.manifest.link.common = vec!["a.conf".to_string(), "b.conf".to_string()];
    w.write("b.conf", "repo b\n");
    ok(w.apply());
    assert_eq!(w.record.links, vec!["a.conf".to_string(), "b.conf".to_string()]);
}

#[test]
fn a_faulty_template_with_a_secret_is_deferred() {
    let mut w = rendered(&["gen.conf"], "gen.conf", "x = {{ op://a/b }} {{ bg\n");
    provider(&mut w, "op");
    let out = ok(w.apply());
    assert!(out.contains("deferred gen.conf  (needs op)"), "{out}");
    let e = w.apply_with(false, true, true).unwrap_err();
    assert!(e.contains("unterminated"), "{e}");
    let mut w = rendered(&["gen.conf"], "gen.conf", "x = {{ bg\n");
    assert!(w.apply().unwrap_err().contains("unterminated"));
}

#[test]
fn an_unchanged_output_is_not_written() {
    let there = Some(b"x".to_vec());
    let same = write_step("o", Place::File, &there, &b"x".to_vec());
    assert!(matches!(same, WriteStep::Unchanged));
    let other = write_step("o", Place::File, &there, &b"y".to_vec());
    assert!(matches!(other, WriteStep::Write));
    let fresh = write_step("o", Place::Free, &None, &b"x".to_vec());
    assert!(matches!(fresh, WriteStep::Write));
    match write_step("o", Place::Link, &there, &b"x".to_vec()) {
        WriteStep::Refused(why) => {
            assert_eq!(why, "o is a symlink; refusing to write through it")
        }
        _ => panic!("written through a link"),
    }
}

#[test]
fn a_rollback_that_stops_puts_no_older_file_over_the_restored_one() {
    let mut w = World::new(&["a.conf"]);
    w.record.moved("/h/a.conf", "/h/a.conf.sennit-backup");
    w.record.moved("/h/b.conf", "/h/b.conf.sennit-backup");
    w.record.moved("/h/a.conf", "/h/a.conf.sennit-backup.1");
    let all = verdicts(&w.record.backups, &vec![true, true, true]);
    assert_eq!(
        undoing(&all, false),
        vec![Undo::Restore(1), Undo::Restore(2), Undo::Forget]
    );
    // It stops after the file at `a.conf` came back.
    w.record.restored("/h/a.conf");
    assert_eq!(w.record.backups.len(), 1);
    assert_eq!(w.record.backups[0].dest, "/h/b.conf");
    let rest = verdicts(&w.record.backups, &vec![true]);
    assert_eq!(undoing(&rest, false), vec![Undo::Restore(0), Undo::Forget]);
}
