use regrate::commands::{
    plan_commit, plan_create, plan_init, plan_validate, require_regrate_inited, CreateStep, TemplateEntry,
};
use regrate::names::{DirFile, StoreDir, StoreListing};
use regrate::types::{CommitArgs, CreateArgs, InitArgs, InitType, RegrateError};

const FIRST: &str = "5kNMjf1tnaPFF2aVx3LYqqKgSaNibdhaHrEcyKU7uSXa";
const SECOND: &str = "4MiLi3GHttj6aBeYiUGyKZ3UF71sMR1ygsvTvt29at81";

fn one_migration(contents: &[u8]) -> StoreListing {
    StoreListing {
        dirs: vec![StoreDir {
            prefix: FIRST[0..2].to_string(),
            rest: FIRST[2..].to_string(),
            files: vec![DirFile {
                relative: "up.sh".to_string(),
                size: contents.len() as u64,
                contents: contents.to_vec(),
            }],
        }],
    }
}

#[test]
fn store_must_exist() {
    assert!(require_regrate_inited(true).is_ok());
    assert!(matches!(require_regrate_inited(false), Err(RegrateError::NotInitialized)));
}

#[test]
fn create_refuses_an_existing_current() {
    let args = CreateArgs { current: false, command: None, replace: "{}".to_string() };
    assert!(plan_create(&args, false, &vec![]).is_ok());
    assert!(matches!(plan_create(&args, true, &vec![]), Err(RegrateError::CurrentAlreadyExists)));
}

#[test]
fn create_copies_the_template() {
    let args = CreateArgs { current: false, command: None, replace: "{}".to_string() };
    let template = vec![
        TemplateEntry { rel: vec!["sub".to_string()], is_dir: true },
        TemplateEntry { rel: vec!["sub".to_string(), "x.sql".to_string()], is_dir: false },
        TemplateEntry { rel: vec!["up.sh".to_string()], is_dir: false },
    ];
    let steps = plan_create(&args, false, &template).ok().unwrap();
    assert_eq!(steps.len(), 4);
    assert!(matches!(&steps[0], CreateStep::MakeDir(p) if p.parts == vec!["current"]));
    assert!(matches!(&steps[1], CreateStep::MakeDir(p) if p.parts == vec!["current", "sub"]));
    match &steps[2] {
        CreateStep::CopyFile { from, to } => {
            assert_eq!(from.parts, vec!["template", "sub", "x.sql"]);
            assert_eq!(to.parts, vec!["current", "sub", "x.sql"]);
        }
        _ => panic!("expected a copy"),
    }
    // an empty template gives an empty `current`
    let steps = plan_create(&args, false, &vec![]).ok().unwrap();
    assert_eq!(steps.len(), 1);
}

#[test]
fn init_writes_shell_templates_executable() {
    let args = InitArgs { which: InitType::Shell, no_template: false, force: false, path: None };
    let plan = plan_init(&args, false).ok().unwrap();
    assert!(!plan.remove_existing);
    assert_eq!(plan.config.mode, InitType::Shell);
    let names: Vec<&str> = plan.templates.iter().map(|t| t.file_name.as_str()).collect();
    assert_eq!(names, vec!["up.sh", "down.sh"]);
    assert!(plan.templates.iter().all(|t| t.executable));
    let args = InitArgs { which: InitType::Mysql, no_template: false, force: false, path: None };
    let plan = plan_init(&args, false).ok().unwrap();
    assert!(plan.templates.iter().all(|t| !t.executable));
    assert_eq!(plan.templates[0].file_name, "up.mysql");
}

#[test]
fn init_refuses_an_existing_store_unless_forced() {
    let args = InitArgs { which: InitType::Postgres, no_template: true, force: false, path: None };
    assert!(matches!(plan_init(&args, true), Err(RegrateError::AlreadyInitialized)));
    let forced = InitArgs { which: InitType::Postgres, no_template: true, force: true, path: None };
    let plan = plan_init(&forced, true).ok().unwrap();
    assert!(plan.remove_existing);
    assert!(plan.templates.is_empty());
}

#[test]
fn commit_takes_the_reserved_name() {
    let args = CommitArgs { message: "add two columns".to_string() };
    let plan = plan_commit(&args, true, &one_migration(b"echo hi\n")).ok().unwrap();
    assert_eq!(plan.info.name, SECOND);
    assert_eq!(plan.info.message, "add two columns");
    assert_eq!(plan.dest.parts, vec!["store".to_string(), SECOND[0..2].to_string(), SECOND[2..].to_string()]);
    let empty = StoreListing { dirs: vec![] };
    assert_eq!(plan_commit(&args, true, &empty).ok().unwrap().info.name, FIRST);
    assert!(matches!(plan_commit(&args, false, &empty), Err(RegrateError::NoCurrentToCommit)));
}

#[test]
fn valid_reports_the_chain_or_the_orphans() {
    let report = plan_validate(&one_migration(b"echo hi\n")).ok().unwrap();
    assert_eq!(report.migrations.len(), 1);
    assert_eq!(report.pending_name, SECOND);
    let mut store = one_migration(b"edited\n");
    store.dirs.push(StoreDir { prefix: SECOND[0..2].to_string(), rest: SECOND[2..].to_string(), files: vec![] });
    match plan_validate(&store) {
        Err(RegrateError::Unreachable(o)) => assert_eq!(o, vec![SECOND.to_string()]),
        _ => panic!("expected orphans"),
    }
}

#[test]
fn committing_extends_the_chain_by_one() {
    let store = one_migration(b"echo hi\n");
    let args = CommitArgs { message: "m".to_string() };
    let plan = plan_commit(&args, true, &store).ok().unwrap();
    // the committed `current` lands where the plan says
    let mut after = store;
    after.dirs.push(StoreDir {
        prefix: plan.dest.parts[1].clone(),
        rest: plan.dest.parts[2].clone(),
        files: vec![DirFile { relative: "up.sh".to_string(), size: 3, contents: b"new".to_vec() }],
    });
    let report = plan_validate(&after).ok().unwrap();
    assert_eq!(report.migrations.len(), 2);
    assert_eq!(report.migrations[1].name, plan.info.name);
    assert_eq!(report.migrations[1].index, 1);
    assert_eq!(report.pending_name, report.migrations[1].next_name);
}
