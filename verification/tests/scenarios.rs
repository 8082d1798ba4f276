use regrate::commands::{plan_commit, plan_init, plan_validate};
use regrate::names::{hash_dir, DirFile, StoreDir, StoreListing};
use regrate::run::{plan_run, run_step, EnvVar, Step};
use regrate::types::{CommitArgs, InitArgs, InitType, RunArgs};

const FIRST: &str = "5kNMjf1tnaPFF2aVx3LYqqKgSaNibdhaHrEcyKU7uSXa";

fn file(relative: &str, contents: &[u8]) -> DirFile {
    DirFile { relative: relative.to_string(), size: contents.len() as u64, contents: contents.to_vec() }
}

fn strings(v: &[&str]) -> Vec<String> {
    v.iter().map(|s| s.to_string()).collect()
}

fn empty_store() -> StoreListing {
    StoreListing { dirs: vec![] }
}

/// What `regrate create`, writing `up.sh`, and `regrate commit -m message`
/// leave in the store: `current` (with the shell templates and the new
/// `up.sh`) moves under the reserved name, with its `info.toml`. The new
/// directory goes first in the listing, as a filesystem may list it.
fn commit_migration(store: &mut StoreListing, script: &str, message: &str) {
    let args = CommitArgs { message: message.to_string() };
    let plan = plan_commit(&args, true, store).ok().unwrap();
    let info = format!("name = \"{}\"\nmessage = \"{}\"\n", plan.info.name, plan.info.message);
    let files = vec![
        file("down.sh", b"#!/bin/sh\n# revert this migration\nset -e\n"),
        file("info.toml", info.as_bytes()),
        file("up.sh", script.as_bytes()),
    ];
    assert_eq!(plan.dest.parts[0], "store");
    let dir = StoreDir { prefix: plan.dest.parts[1].clone(), rest: plan.dest.parts[2].clone(), files };
    store.dirs.insert(0, dir);
}

/// The names of the store's migrations, sorted.
fn store_names(store: &StoreListing) -> Vec<String> {
    let mut names: Vec<String> = store.dirs.iter().map(|d| format!("{}{}", d.prefix, d.rest)).collect();
    names.sort();
    names
}

/// The `up.sh` that a step of a run executes.
fn up_script_of(store: &StoreListing, step: &Step) -> String {
    let dir = store
        .dirs
        .iter()
        .find(|d| step.path.parts == vec!["store".to_string(), d.prefix.clone(), d.rest.clone()])
        .expect("the step's directory is in the store");
    let up = dir.files.iter().find(|f| f.relative == "up.sh").expect("up.sh");
    String::from_utf8(up.contents.clone()).unwrap()
}

#[test]
fn init_creates_expected_layout() {
    let args = InitArgs { which: InitType::Shell, no_template: false, force: false, path: None };
    let plan = plan_init(&args, false).ok().unwrap();
    // a fresh directory: nothing to remove, repo.toml records the kind
    assert!(!plan.remove_existing);
    assert_eq!(plan.config.mode, InitType::Shell);
    // regrate/template/up.sh and regrate/template/down.sh
    let names: Vec<&str> = plan.templates.iter().map(|t| t.file_name.as_str()).collect();
    assert_eq!(names, vec!["up.sh", "down.sh"]);
    // a store that regrate/store starts as gives the first name to the first commit
    let report = plan_validate(&empty_store()).ok().unwrap();
    assert!(report.migrations.is_empty());
    assert_eq!(report.pending_name, FIRST);
}

#[test]
fn run_executes_migrations_in_commit_order() {
    let mut store = empty_store();
    commit_migration(&mut store, "#!/bin/sh\necho first\n", "first");
    commit_migration(&mut store, "#!/bin/sh\necho second\n", "second");

    let args = RunArgs { current: false, command: strings(&["sh", "{up}"]) };
    let steps = plan_run(&args, &store, false).ok().unwrap();
    assert_eq!(steps.len(), 2);
    let outputs: Vec<String> = steps.iter().map(|s| up_script_of(&store, s)).collect();
    let first = outputs.iter().position(|o| o.contains("first")).expect("first migration ran");
    let second = outputs.iter().position(|o| o.contains("second")).expect("second migration ran");
    assert!(first < second, "migrations ran out of order: {:?}", outputs);
    // each step runs `sh` on its own directory's up.sh
    for s in &steps {
        let inv = run_step(s, InitType::Shell, &args.command, Some("/w/regrate")).ok().unwrap();
        assert_eq!(inv.program, "sh");
        let dir = format!("/w/regrate/store/{}/{}", &s.name[0..2], &s.name[2..]);
        assert_eq!(inv.args, vec![format!("{}/up.sh", dir)]);
    }
}

#[test]
fn names_are_deterministic_across_repos() {
    let mut a = empty_store();
    let mut b = empty_store();
    for store in [&mut a, &mut b] {
        commit_migration(store, "#!/bin/sh\necho same content\n", "same message");
    }
    assert_eq!(store_names(&a), store_names(&b));
    // the names that follow, derived from the committed files, agree too
    let pending_a = plan_validate(&a).ok().unwrap().pending_name;
    let pending_b = plan_validate(&b).ok().unwrap().pending_name;
    assert_eq!(pending_a, pending_b);
    assert_ne!(pending_a, FIRST);
}

#[test]
fn run_sets_regrate_index_and_name() {
    let mut store = empty_store();
    commit_migration(&mut store, "", "a");
    commit_migration(&mut store, "", "b");

    let command = strings(&["sh", "-c", "echo index=$REGRATE_INDEX name=$REGRATE_NAME"]);
    let args = RunArgs { current: false, command: command.clone() };
    let steps = plan_run(&args, &store, false).ok().unwrap();
    assert_eq!(steps.len(), 2);
    for (i, s) in steps.iter().enumerate() {
        let inv = run_step(s, InitType::Shell, &command, Some("/w/regrate")).ok().unwrap();
        // the script text is handed over as it is; the shell expands the variables
        assert_eq!(inv.args, command[1..].to_vec());
        assert!(matches!(inv.env[0], EnvVar::Index(n) if n == i), "missing index {}", i);
        assert!(matches!(&inv.env[1], EnvVar::Name(n) if *n == s.name));
    }
    assert_eq!(steps[0].name, FIRST);
}

#[test]
fn files_are_hashed_in_walk_order() {
    // a walk meets `a/x` (inside directory `a`) before `a.sh`, though
    // "a.sh" < "a/x" as whole strings
    let listed = vec![file("a/x", b"1"), file("a.sh", b"2")];
    let listed_again = vec![file("a/x", b"1"), file("a.sh", b"2")];
    assert_eq!(hash_dir(FIRST, &listed), hash_dir(FIRST, &listed_again));
    // the hash follows the listing, so the listing must be in walk order
    let other_order = vec![file("a.sh", b"2"), file("a/x", b"1")];
    assert_ne!(hash_dir(FIRST, &listed), hash_dir(FIRST, &other_order));
}
