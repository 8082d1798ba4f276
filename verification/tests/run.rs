use regrate::names::{DirFile, StoreDir, StoreListing};
use regrate::paths::{path_text, RepoPath};
use regrate::run::{after_step, first_action, path_str, plan_run, run_step, script_names, EnvVar, RunAction, Step};
use regrate::types::{InitType, RegrateError, RunArgs};

const FIRST: &str = "5kNMjf1tnaPFF2aVx3LYqqKgSaNibdhaHrEcyKU7uSXa";
const SECOND: &str = "4MiLi3GHttj6aBeYiUGyKZ3UF71sMR1ygsvTvt29at81";
const THIRD: &str = "HSYzv3HP56mZQa5kpB5apXQeHuku2xK4tEQVh4EcfrEa";

fn file(relative: &str, contents: &[u8]) -> DirFile {
    DirFile { relative: relative.to_string(), size: contents.len() as u64, contents: contents.to_vec() }
}

fn dir_for(name: &str, files: Vec<DirFile>) -> StoreDir {
    StoreDir { prefix: name[0..2].to_string(), rest: name[2..].to_string(), files }
}

fn two_migrations() -> StoreListing {
    StoreListing {
        dirs: vec![
            dir_for(FIRST, vec![file("up.sh", b"echo hi\n")]),
            dir_for(SECOND, vec![file("up.sh", b"#!/bin/sh\necho second\n")]),
        ],
    }
}

fn args(current: bool, command: &[&str]) -> RunArgs {
    RunArgs { current, command: command.iter().map(|s| s.to_string()).collect() }
}

fn strings(v: &[&str]) -> Vec<String> {
    v.iter().map(|s| s.to_string()).collect()
}

#[test]
fn steps_run_in_chain_order() {
    let steps = plan_run(&args(false, &["sh", "{up}"]), &two_migrations(), false).ok().unwrap();
    assert_eq!(steps.len(), 2);
    assert_eq!((steps[0].index, steps[0].name.as_str()), (0, FIRST));
    assert_eq!((steps[1].index, steps[1].name.as_str()), (1, SECOND));
    assert_eq!(steps[1].next_name.as_deref(), Some(THIRD));
}

#[test]
fn current_runs_last_under_its_future_name() {
    let steps = plan_run(&args(true, &["sh", "{up}"]), &two_migrations(), true).ok().unwrap();
    assert_eq!(steps.len(), 3);
    assert_eq!(steps[2].index, 2);
    assert_eq!(steps[2].name, THIRD);
    assert_eq!(steps[2].path.parts, vec!["current".to_string()]);
    assert!(steps[2].next_name.is_none() && steps[2].next_path.is_none());
    // without --current the work in progress does not run
    let steps = plan_run(&args(false, &["sh", "{up}"]), &two_migrations(), true).ok().unwrap();
    assert_eq!(steps.len(), 2);
}

#[test]
fn current_flag_without_current_migration_is_an_error() {
    let r = plan_run(&args(true, &["sh", "{up}"]), &two_migrations(), false);
    assert!(matches!(r, Err(RegrateError::NoCurrentToRun)));
}

#[test]
fn broken_chain_is_refused_before_anything_runs() {
    let store = StoreListing {
        dirs: vec![
            dir_for(FIRST, vec![file("up.sh", b"tampered\n")]),
            dir_for(SECOND, vec![file("up.sh", b"echo two\n")]),
        ],
    };
    match plan_run(&args(false, &["sh", "{up}"]), &store, false) {
        Err(RegrateError::Unreachable(o)) => assert_eq!(o, vec![SECOND.to_string()]),
        _ => panic!("expected unreachable migrations"),
    }
}

fn committed_step() -> Step {
    Step {
        index: 1,
        name: SECOND.to_string(),
        path: RepoPath { parts: strings(&["store", &SECOND[0..2], &SECOND[2..]]) },
        next_name: Some(THIRD.to_string()),
        next_path: Some(RepoPath { parts: strings(&["store", &THIRD[0..2], &THIRD[2..]]) }),
    }
}

#[test]
fn placeholders_are_replaced_only_when_whole() {
    let cmd = strings(&["psql", "{up}", "{down}", "{name}", "{next-name}", "x{name}", "{path}", "{next_path}"]);
    let inv = run_step(&committed_step(), InitType::Postgres, &cmd, Some("/w/regrate")).ok().unwrap();
    assert_eq!(inv.program, "psql");
    let dir = format!("/w/regrate/store/{}/{}", &SECOND[0..2], &SECOND[2..]);
    assert_eq!(
        inv.args,
        vec![
            format!("{}/up.psql", dir),
            format!("{}/down.psql", dir),
            SECOND.to_string(),
            THIRD.to_string(),
            "x{name}".to_string(),
            dir.clone(),
            format!("/w/regrate/store/{}/{}", &THIRD[0..2], &THIRD[2..]),
        ]
    );
}

#[test]
fn environment_carries_index_name_and_path() {
    let inv = run_step(&committed_step(), InitType::Shell, &strings(&["sh"]), Some("/r")).ok().unwrap();
    assert_eq!(inv.env.len(), 5);
    assert!(matches!(inv.env[0], EnvVar::Index(1)));
    assert!(matches!(&inv.env[1], EnvVar::Name(n) if n == SECOND));
    assert!(matches!(&inv.env[3], EnvVar::NextName(n) if n == THIRD));
    let current = Step {
        index: 0,
        name: FIRST.to_string(),
        path: RepoPath { parts: strings(&["current"]) },
        next_name: None,
        next_path: None,
    };
    let inv = run_step(&current, InitType::Shell, &strings(&["sh"]), Some("/r")).ok().unwrap();
    assert_eq!(inv.env.len(), 3);
    assert!(matches!(inv.env[0], EnvVar::Index(0)));
}

#[test]
fn next_name_of_current_is_unknown() {
    let current = Step {
        index: 0,
        name: FIRST.to_string(),
        path: RepoPath { parts: strings(&["current"]) },
        next_name: None,
        next_path: None,
    };
    let r = run_step(&current, InitType::Shell, &strings(&["echo", "{next-name}"]), Some("/r"));
    assert!(matches!(r, Err(RegrateError::NextNameUnknown)));
    let r = run_step(&current, InitType::Shell, &strings(&["echo", "{next_path}"]), Some("/r"));
    assert!(matches!(r, Err(RegrateError::NextPathUnknown)));
}

#[test]
fn empty_command_and_non_utf8_paths_are_errors() {
    let r = run_step(&committed_step(), InitType::Shell, &vec![], Some("/r"));
    assert!(matches!(r, Err(RegrateError::CommandRequired)));
    let r = run_step(&committed_step(), InitType::Shell, &strings(&["sh", "{up}"]), None);
    match r {
        Err(RegrateError::PathNotUtf8(p)) => assert_eq!(p.parts.last().unwrap(), "up.sh"),
        _ => panic!("expected a UTF-8 error"),
    }
    // a command that needs no path runs even when the root is not UTF-8
    assert!(run_step(&committed_step(), InitType::Shell, &strings(&["echo", "{name}"]), None).is_ok());
}

#[test]
fn script_names_per_kind() {
    assert_eq!(script_names(InitType::Shell), ("up.sh", "down.sh"));
    assert_eq!(script_names(InitType::Mysql), ("up.mysql", "down.mysql"));
    assert_eq!(script_names(InitType::Postgres), ("up.psql", "down.psql"));
}

#[test]
fn paths_join_like_pathbuf() {
    let p = RepoPath { parts: strings(&["store", "ab", "cd"]) };
    assert_eq!(path_text("/w/regrate", &p), "/w/regrate/store/ab/cd");
    assert_eq!(path_text("/w/", &p), "/w/store/ab/cd");
    let abs = RepoPath { parts: strings(&["a", "/etc", "b"]) };
    assert_eq!(path_text("/w", &abs), "/etc/b");
    assert_eq!(path_str(Some("r"), &p).ok().unwrap(), "r/store/ab/cd");
}

#[test]
fn a_failed_step_stops_the_run() {
    assert!(matches!(first_action(0), RunAction::Finished));
    assert!(matches!(first_action(3), RunAction::Run(0)));
    assert!(matches!(after_step(3, 0, true), RunAction::Run(1)));
    assert!(matches!(after_step(3, 1, false), RunAction::Failed(1)));
    assert!(matches!(after_step(3, 2, true), RunAction::Finished));
}
