use regrate::resolve::{components, conflict_sides, plan_resolve, plan_resolve_files, store_prefix, ResolvePlan};
use regrate::types::RegrateError;

fn strings(v: &[&str]) -> Vec<String> {
    v.iter().map(|s| s.to_string()).collect()
}

#[test]
fn sides_swap_during_a_rebase() {
    assert_eq!(conflict_sides(false), ("HEAD", "MERGE_HEAD"));
    assert_eq!(conflict_sides(true), ("REBASE_HEAD", "HEAD"));
}

#[test]
fn components_follow_path_rules() {
    assert_eq!(components("regrate/store/ab/cd/up.sh"), strings(&["regrate", "store", "ab", "cd", "up.sh"]));
    assert_eq!(components("a//b/./c/"), strings(&["a", "b", "c"]));
    assert_eq!(components("./a"), strings(&[".", "a"]));
    assert_eq!(components("/x/y"), strings(&["/", "x", "y"]));
    assert_eq!(components(""), Vec::<String>::new());
}

#[test]
fn store_prefix_is_relative_to_the_top_level() {
    let top = strings(&["/", "home", "repo"]);
    let cwd = strings(&["/", "home", "repo", "db"]);
    assert_eq!(store_prefix(&cwd, &top), strings(&["db", "regrate", "store"]));
    assert_eq!(store_prefix(&top, &top), strings(&["regrate", "store"]));
    let elsewhere = strings(&["/", "tmp"]);
    assert_eq!(store_prefix(&elsewhere, &top), strings(&["regrate", "store"]));
}

#[test]
fn conflicts_of_one_migration_name_its_directory() {
    let prefix = strings(&["regrate", "store"]);
    let out = "regrate/store/ab/cdef/up.sh\0README.md\0regrate/store/ab/cdef/sub/x.sql\0";
    match plan_resolve(out, &prefix, false) {
        Ok(ResolvePlan::Resolve { migration, dir, unmerged }) => {
            assert_eq!(migration, "abcdef");
            assert_eq!(dir, strings(&["regrate", "store", "ab", "cdef"]));
            assert_eq!(unmerged, strings(&["regrate/store/ab/cdef/up.sh", "regrate/store/ab/cdef/sub/x.sql"]));
        }
        _ => panic!("expected a resolution"),
    }
}

#[test]
fn whole_local_migration_moves_to_current_and_store_keeps_upstream() {
    let dir = strings(&["regrate", "store", "ab", "cdef"]);
    let unmerged = strings(&["regrate/store/ab/cdef/up.sh"]);
    let local = "regrate/store/ab/cdef/down.sh\0regrate/store/ab/cdef/local.sql\0regrate/store/ab/cdef/up.sh\0";
    let upstream = "regrate/store/ab/cdef/down.sh\0regrate/store/ab/cdef/up.sh\0regrate/store/ab/other\0";
    let r = plan_resolve_files(&dir, &unmerged, local, upstream, false);
    let copies: Vec<(String, Vec<String>)> =
        r.to_current.iter().map(|c| (c.source.clone(), c.dest.parts.clone())).collect();
    assert_eq!(
        copies,
        vec![
            ("HEAD:regrate/store/ab/cdef/down.sh".to_string(), strings(&["current", "down.sh"])),
            ("HEAD:regrate/store/ab/cdef/local.sql".to_string(), strings(&["current", "local.sql"])),
            ("HEAD:regrate/store/ab/cdef/up.sh".to_string(), strings(&["current", "up.sh"])),
        ]
    );
    let writes: Vec<(String, String)> = r.to_store.iter().map(|w| (w.source.clone(), w.repo_path.clone())).collect();
    assert_eq!(
        writes,
        vec![
            ("MERGE_HEAD:regrate/store/ab/cdef/down.sh".to_string(), "regrate/store/ab/cdef/down.sh".to_string()),
            ("MERGE_HEAD:regrate/store/ab/cdef/up.sh".to_string(), "regrate/store/ab/cdef/up.sh".to_string()),
        ]
    );
    assert_eq!(r.to_remove, strings(&["regrate/store/ab/cdef/local.sql"]));
    assert_eq!(
        r.to_stage,
        strings(&[
            "regrate/store/ab/cdef/up.sh",
            "regrate/store/ab/cdef/down.sh",
            "regrate/store/ab/cdef/up.sh",
            "regrate/store/ab/cdef/local.sql",
        ])
    );
    let rebased = plan_resolve_files(&dir, &unmerged, local, upstream, true);
    assert_eq!(rebased.to_current[0].source, "REBASE_HEAD:regrate/store/ab/cdef/down.sh");
    assert_eq!(rebased.to_store[0].source, "HEAD:regrate/store/ab/cdef/down.sh");
}

#[test]
fn nothing_outside_the_store_to_resolve() {
    let prefix = strings(&["regrate", "store"]);
    let r = plan_resolve("src/main.rs\0regrate/store/ab\0", &prefix, true);
    assert!(matches!(r, Ok(ResolvePlan::NothingToResolve)));
    assert!(matches!(plan_resolve("", &prefix, false), Ok(ResolvePlan::NothingToResolve)));
}

#[test]
fn conflicts_in_two_migrations_are_refused() {
    let prefix = strings(&["regrate", "store"]);
    let out = "regrate/store/zz/top/up.sh\0regrate/store/ab/cd/up.sh\0regrate/store/zz/top/down.sh";
    match plan_resolve(out, &prefix, false) {
        Err(RegrateError::ConflictsSpanMigrations(keys)) => assert_eq!(keys, strings(&["abcd", "zztop"])),
        _ => panic!("expected a refusal"),
    }
}

#[test]
fn existing_current_blocks_resolve() {
    let prefix = strings(&["regrate", "store"]);
    let r = plan_resolve("regrate/store/ab/cd/up.sh", &prefix, true);
    assert!(matches!(r, Err(RegrateError::CurrentBlocksResolve)));
}
