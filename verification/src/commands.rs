//! The decisions of `init`, `create`, `commit` and `valid`: what each
//! command refuses, and what it goes on to write.

use vstd::prelude::*;
use crate::names::{
    chain, migration_views, orphans, store_chain, unreached_names, Migration, StoreListing,
};
use crate::paths::{store_path_of, RepoPath};
use crate::run::{current_dir, down_script, script_names, up_script};
use crate::text::{sorted, views};
use crate::types::{CommitArgs, CreateArgs, Info, InitArgs, InitType, RegrateError, RepoConfig};

verus! {

/// Error unless regrate is initialized, that is, unless `regrate/store`
/// exists.
pub fn require_regrate_inited(store_exists: bool) -> (res: Result<(), RegrateError>)
    ensures
        store_exists <==> res is Ok,
        res matches Err(e) ==> e is NotInitialized,
{
    if !store_exists {
        return Err(RegrateError::NotInitialized);
    }
    Ok(())
}

/// An entry of `regrate/template`: its path relative to that directory,
/// and whether it is a directory.
pub struct TemplateEntry {
    pub rel: Vec<String>,
    pub is_dir: bool,
}

/// The mathematical value of a [`TemplateEntry`].
pub struct TemplateEntryModel {
    pub rel: Seq<Seq<char>>,
    pub is_dir: bool,
}

impl View for TemplateEntry {
    type V = TemplateEntryModel;

    open spec fn view(&self) -> TemplateEntryModel {
        TemplateEntryModel { rel: views(self.rel@), is_dir: self.is_dir }
    }
}

/// A step of making `regrate/current`.
pub enum CreateStep {
    /// Make a directory.
    MakeDir(RepoPath),
    /// Copy a file.
    CopyFile { from: RepoPath, to: RepoPath },
}

/// The mathematical value of a [`CreateStep`].
pub enum CreateStepModel {
    MakeDir(Seq<Seq<char>>),
    CopyFile { from: Seq<Seq<char>>, to: Seq<Seq<char>> },
}

impl View for CreateStep {
    type V = CreateStepModel;

    open spec fn view(&self) -> CreateStepModel {
        match self {
            CreateStep::MakeDir(p) => CreateStepModel::MakeDir(p@),
            CreateStep::CopyFile { from, to } => CreateStepModel::CopyFile { from: from@, to: to@ },
        }
    }
}

/// The `template` directory component.
pub open spec fn template_dir() -> Seq<char> {
    seq!['t', 'e', 'm', 'p', 'l', 'a', 't', 'e']
}

/// What an entry of the template becomes under `current`: the same
/// directory, or a copy of the same file.
pub open spec fn create_step_of(e: TemplateEntryModel) -> CreateStepModel {
    if e.is_dir {
        CreateStepModel::MakeDir(seq![current_dir()] + e.rel)
    } else {
        CreateStepModel::CopyFile { from: seq![template_dir()] + e.rel, to: seq![current_dir()] + e.rel }
    }
}

/// The steps that make `regrate/current` a copy of `regrate/template`:
/// make `current`, then each template entry in turn (so a directory is made
/// before what it holds, given the template's entries in walk order).
pub open spec fn create_steps(template: Seq<TemplateEntryModel>) -> Seq<CreateStepModel> {
    seq![CreateStepModel::MakeDir(seq![current_dir()])] + template.map_values(
        |e: TemplateEntryModel| create_step_of(e),
    )
}

fn prefixed(first: &str, rel: &Vec<String>) -> (p: RepoPath)
    ensures
        p@ == seq![first@] + views(rel@),
{
    let mut parts: Vec<String> = Vec::new();
    parts.push(first.to_owned());
    for i in 0..rel.len()
        invariant
            views(parts@) == seq![first@] + views(rel@).take(i as int),
    {
        let ghost before = views(parts@);
        parts.push(rel[i].clone());
        assert(views(parts@) =~= before.push(rel@[i as int]@));
        assert(views(rel@).take(i + 1) =~= views(rel@).take(i as int).push(rel@[i as int]@));
        assert(views(parts@) =~= seq![first@] + views(rel@).take(i + 1));
    }
    assert(views(rel@).take(rel@.len() as int) =~= views(rel@));
    RepoPath { parts }
}

/// `regrate create` starts a new migration where there is no `current`
/// one: `current` becomes a copy of the template, directories and files
/// alike (an empty directory for an empty template). Its arguments do not
/// bear on that; the command prints them.
pub fn plan_create(args: &CreateArgs, current_exists: bool, template: &Vec<TemplateEntry>) -> (res:
    Result<Vec<CreateStep>, RegrateError>)
    ensures
        !current_exists <==> res is Ok,
        res matches Err(e) ==> e is CurrentAlreadyExists,
        res matches Ok(steps) ==> steps@.map_values(|s: CreateStep| s@) == create_steps(
            template@.map_values(|e: TemplateEntry| e@),
        ),
{
    if current_exists {
        return Err(RegrateError::CurrentAlreadyExists);
    }
    let ghost tv = template@.map_values(|e: TemplateEntry| e@);
    let mut steps: Vec<CreateStep> = Vec::new();
    steps.push(CreateStep::MakeDir(crate::paths::location("current")));
    proof {
        reveal_strlit("current");
        assert("current"@ =~= current_dir());
        assert(steps@.map_values(|s: CreateStep| s@) =~= create_steps(tv.take(0)));
    }
    for i in 0..template.len()
        invariant
            tv == template@.map_values(|e: TemplateEntry| e@),
            steps@.map_values(|s: CreateStep| s@) == create_steps(tv.take(i as int)),
    {
        let e = &template[i];
        let step = if e.is_dir {
            CreateStep::MakeDir(prefixed("current", &e.rel))
        } else {
            CreateStep::CopyFile { from: prefixed("template", &e.rel), to: prefixed("current", &e.rel) }
        };
        proof {
            reveal_strlit("current");
            reveal_strlit("template");
            assert("current"@ =~= current_dir());
            assert("template"@ =~= template_dir());
            assert(step@ == create_step_of(tv[i as int]));
        }
        let ghost before = steps@.map_values(|s: CreateStep| s@);
        steps.push(step);
        assert(steps@.map_values(|s: CreateStep| s@) =~= before.push(step@));
        assert(tv.take(i + 1).map_values(|e: TemplateEntryModel| create_step_of(e)) =~= tv.take(
            i as int,
        ).map_values(|e: TemplateEntryModel| create_step_of(e)).push(create_step_of(tv[i as int])));
        assert(create_steps(tv.take(i + 1)) =~= create_steps(tv.take(i as int)).push(
            create_step_of(tv[i as int]),
        ));
    }
    assert(tv.take(template@.len() as int) =~= tv);
    Ok(steps)
}

/// A script template that `init` writes into `regrate/template`.
pub struct Template {
    pub file_name: String,
    pub executable: bool,
}

/// What `regrate init` writes.
pub struct InitPlan {
    /// Remove an existing `regrate` directory first (a missing one is fine).
    pub remove_existing: bool,
    /// The contents of `repo.toml`.
    pub config: RepoConfig,
    /// The script templates to write.
    pub templates: Vec<Template>,
}

/// Decides what `regrate init` does: with `--force` it starts over, else it
/// refuses a directory that is already set up. Shell templates are written
/// executable; `--no-template` writes none.
pub fn plan_init(args: &InitArgs, store_exists: bool) -> (res: Result<InitPlan, RegrateError>)
    ensures
        !args.force && store_exists <==> res is Err,
        res matches Err(e) ==> e is AlreadyInitialized,
        res matches Ok(plan) ==> {
            &&& plan.remove_existing == args.force
            &&& plan.config == RepoConfig { mode: args.which }
            &&& if args.no_template {
                plan.templates@.len() == 0
            } else {
                &&& plan.templates@.len() == 2
                &&& plan.templates@[0].file_name@ == up_script(args.which)
                &&& plan.templates@[1].file_name@ == down_script(args.which)
                &&& plan.templates@[0].executable == (args.which == InitType::Shell)
                &&& plan.templates@[1].executable == (args.which == InitType::Shell)
            }
        },
{
    if !args.force && store_exists {
        return Err(RegrateError::AlreadyInitialized);
    }
    let mut templates: Vec<Template> = Vec::new();
    if !args.no_template {
        let (up, down) = script_names(args.which);
        let executable = match args.which {
            InitType::Shell => true,
            _ => false,
        };
        templates.push(Template { file_name: up.to_owned(), executable });
        templates.push(Template { file_name: down.to_owned(), executable });
    }
    Ok(InitPlan { remove_existing: args.force, config: RepoConfig { mode: args.which }, templates })
}

/// What `regrate commit` writes: the migration's `info.toml`, and where
/// `current` moves to.
pub struct CommitPlan {
    pub info: Info,
    pub dest: RepoPath,
}

/// Decides what `regrate commit` does: it needs a `current` migration and a
/// chain that reaches every migration in the store (committing on a broken
/// chain would orphan this migration too); `current` then moves to the
/// store under the name the chain reserves for it.
pub fn plan_commit(args: &CommitArgs, current_exists: bool, store: &StoreListing) -> (res: Result<
    CommitPlan,
    RegrateError,
>)
    ensures
        !current_exists ==> (res matches Err(e) && e is NoCurrentToCommit),
        current_exists ==> match store_chain(store@) {
            None => res matches Err(e) && e is ChainCycle,
            Some((ms, pending)) => {
                let unreached = unreached_names(store@, ms);
                if unreached.len() > 0 {
                    &&& res matches Err(RegrateError::Unreachable(o))
                    &&& sorted(views(o@))
                    &&& views(o@).to_multiset() == unreached.to_multiset()
                } else {
                    &&& res matches Ok(plan)
                    &&& plan.info.name@ == pending
                    &&& plan.info.message@ == args.message@
                    &&& plan.dest@ == store_path_of(pending)
                }
            },
        },
{
    if !current_exists {
        return Err(RegrateError::NoCurrentToCommit);
    }
    let (migrations, next_name, next_path) = match chain(store) {
        Ok(c) => c,
        Err(e) => return Err(e),
    };
    let found = orphans(store, migrations.as_slice());
    proof {
        vstd::seq_lib::to_multiset_len(views(found@));
        vstd::seq_lib::to_multiset_len(unreached_names(store@, migration_views(migrations@)));
    }
    if found.len() > 0 {
        assert(views(found@).len() > 0);
        return Err(RegrateError::Unreachable(found));
    }
    let info = Info { name: next_name, message: args.message.clone() };
    Ok(CommitPlan { info, dest: next_path })
}

/// What `regrate valid` reports of a sound store: its migrations in chain
/// order, and the name the next commit will get.
pub struct ValidReport {
    pub migrations: Vec<Migration>,
    pub pending_name: String,
}

/// `regrate valid`: the store is valid when its chain ends and reaches
/// every migration in it.
pub fn plan_validate(store: &StoreListing) -> (res: Result<ValidReport, RegrateError>)
    ensures
        match store_chain(store@) {
            None => res matches Err(e) && e is ChainCycle,
            Some((ms, pending)) => {
                let unreached = unreached_names(store@, ms);
                if unreached.len() > 0 {
                    &&& res matches Err(RegrateError::Unreachable(o))
                    &&& sorted(views(o@))
                    &&& views(o@).to_multiset() == unreached.to_multiset()
                } else {
                    &&& res matches Ok(report)
                    &&& migration_views(report.migrations@) == ms
                    &&& report.pending_name@ == pending
                }
            },
        },
{
    let (migrations, pending_name, _pending_path) = match chain(store) {
        Ok(c) => c,
        Err(e) => return Err(e),
    };
    let found = orphans(store, migrations.as_slice());
    proof {
        vstd::seq_lib::to_multiset_len(views(found@));
        vstd::seq_lib::to_multiset_len(unreached_names(store@, migration_views(migrations@)));
    }
    if found.len() > 0 {
        assert(views(found@).len() > 0);
        return Err(RegrateError::Unreachable(found));
    }
    Ok(ValidReport { migrations, pending_name })
}

} // verus!
