//! Running migrations: which steps run, in which order, and the command
//! line and environment that each step gets.

use vstd::prelude::*;
use crate::names::{
    chain, first_name, lemma_chain_links, migration_views, orphans, store_chain, unreached_names,
    DirModel, Migration, MigrationModel, StoreListing,
};
use crate::paths::{child_path, copy_path, join_parts, path_text, location, store_path_of, RepoPath};
use crate::text::{sorted, views};
use crate::types::{InitType, RegrateError, RunArgs};

verus! {

broadcast use vstd::seq_lib::group_seq_properties;

/// One migration to run: a committed one, or the `current` one, which has
/// no successor yet.
pub struct Step {
    pub index: usize,
    pub name: String,
    pub path: RepoPath,
    pub next_name: Option<String>,
    pub next_path: Option<RepoPath>,
}

/// The mathematical value of a [`Step`].
pub struct StepModel {
    pub index: int,
    pub name: Seq<char>,
    pub path: Seq<Seq<char>>,
    pub next_name: Option<Seq<char>>,
    pub next_path: Option<Seq<Seq<char>>>,
}

impl View for Step {
    type V = StepModel;

    open spec fn view(&self) -> StepModel {
        StepModel {
            index: self.index as int,
            name: self.name@,
            path: self.path@,
            next_name: match self.next_name {
                Some(n) => Some(n@),
                None => None,
            },
            next_path: match self.next_path {
                Some(p) => Some(p@),
                None => None,
            },
        }
    }
}

/// The views of a list of steps.
pub open spec fn step_views(s: Seq<Step>) -> Seq<StepModel> {
    s.map_values(|st: Step| st@)
}

/// The step that runs a committed migration.
pub open spec fn committed_step(m: MigrationModel) -> StepModel {
    StepModel {
        index: m.index,
        name: m.name,
        path: m.path,
        next_name: Some(m.next_name),
        next_path: Some(m.next_path),
    }
}

/// The `current` directory component.
pub open spec fn current_dir() -> Seq<char> {
    seq!['c', 'u', 'r', 'r', 'e', 'n', 't']
}

/// The steps of a run: every committed migration in chain order, then, when
/// asked for, the `current` migration under the name it will be committed
/// as.
pub open spec fn run_steps(ms: Seq<MigrationModel>, pending: Seq<char>, with_current: bool) -> Seq<
    StepModel,
> {
    let committed = ms.map_values(|m: MigrationModel| committed_step(m));
    if with_current {
        committed.push(
            StepModel {
                index: ms.len() as int,
                name: pending,
                path: seq![current_dir()],
                next_name: None,
                next_path: None,
            },
        )
    } else {
        committed
    }
}

/// Each step of a run is told its zero-based position in the chain
/// (`REGRATE_INDEX`): the committed migrations run in chain order, each
/// knowing its successor, and `current` runs last under the name it will be
/// committed as.
pub proof fn lemma_run_steps_in_chain_order(dirs: Seq<DirModel>, with_current: bool)
    requires
        store_chain(dirs) is Some,
    ensures
        ({
            let (ms, pending) = store_chain(dirs)->0;
            let steps = run_steps(ms, pending, with_current);
            &&& steps.len() == ms.len() + if with_current { 1int } else { 0int }
            &&& forall|i: int| 0 <= i < steps.len() ==> (#[trigger] steps[i]).index == i
            &&& forall|i: int|
                0 <= i < ms.len() ==> {
                    &&& (#[trigger] steps[i]).name == ms[i].name
                    &&& steps[i].next_name == Some(ms[i].next_name)
                }
            &&& forall|i: int| 0 <= i < ms.len() - 1 ==> (#[trigger] steps[i + 1]).name == ms[i].next_name
            &&& forall|i: int|
                0 <= i < ms.len() ==> {
                    &&& (#[trigger] steps[i]).path == store_path_of(steps[i].name)
                    &&& steps[i].next_name matches Some(n) && steps[i].next_path == Some(
                        store_path_of(n),
                    )
                }
            &&& forall|i: int|
                0 <= i < ms.len() - 1 ==> (#[trigger] steps[i]).next_path == Some(steps[i + 1].path)
            &&& ms.len() > 0 ==> steps[0].name == first_name()
            &&& with_current ==> {
                &&& steps.last().name == pending
                &&& steps.last().next_name is None
                &&& steps.last().next_path is None
                &&& steps.last().path == seq![current_dir()]
            }
            &&& !with_current && ms.len() > 0 ==> steps.last().next_path == Some(store_path_of(pending))
        }),
{
    lemma_chain_links(dirs);
    let (ms, pending) = store_chain(dirs)->0;
    let steps = run_steps(ms, pending, with_current);
    assert forall|i: int| 0 <= i < steps.len() implies (#[trigger] steps[i]).index == i by {
        if i < ms.len() {
            assert(ms[i].index == 0 + i);
        }
    }
    assert forall|i: int| 0 <= i < ms.len() - 1 implies (#[trigger] steps[i + 1]).name
        == ms[i].next_name by {
        assert(ms[i + 1].name == ms[i].next_name);
    }
    assert forall|i: int| 0 <= i < ms.len() - 1 implies (#[trigger] steps[i]).next_path == Some(
        steps[i + 1].path,
    ) by {
        assert(ms[i + 1].name == ms[i].next_name);
        assert(steps[i + 1] == committed_step(ms[i + 1]));
    }
}

/// Decides what `regrate run` runs. It refuses a store whose chain does not
/// end, and a store that holds migrations the chain does not reach, rather
/// than silently skipping them; with `--current` it needs a `current`
/// migration directory.
pub fn plan_run(args: &RunArgs, store: &StoreListing, current_is_dir: bool) -> (res: Result<
    Vec<Step>,
    RegrateError,
>)
    ensures
        match store_chain(store@) {
            None => res matches Err(e) && e is ChainCycle,
            Some((ms, pending)) => {
                let unreached = unreached_names(store@, ms);
                if unreached.len() > 0 {
                    &&& res matches Err(RegrateError::Unreachable(o))
                    &&& sorted(views(o@))
                    &&& views(o@).to_multiset() == unreached.to_multiset()
                } else if args.current && !current_is_dir {
                    res matches Err(e) && e is NoCurrentToRun
                } else {
                    res matches Ok(steps) && step_views(steps@) == run_steps(ms, pending, args.current)
                }
            },
        },
{
    let (migrations, pending_name, _pending_path) = match chain(store) {
        Ok(c) => c,
        Err(e) => return Err(e),
    };
    let ghost ms = migration_views(migrations@);
    let found = orphans(store, migrations.as_slice());
    proof {
        vstd::seq_lib::to_multiset_len(views(found@));
        vstd::seq_lib::to_multiset_len(unreached_names(store@, ms));
    }
    if found.len() > 0 {
        assert(views(found@).len() > 0);
        return Err(RegrateError::Unreachable(found));
    }
    proof {
        if unreached_names(store@, ms).len() > 0 {
            assert(unreached_names(store@, ms).to_multiset().count(unreached_names(store@, ms)[0]) > 0);
            assert(views(found@).to_multiset().len() == 0);
        }
    }
    let mut steps: Vec<Step> = Vec::new();
    let n = migrations.len();
    for i in 0..n
        invariant
            n == migrations@.len(),
            ms == migration_views(migrations@),
            step_views(steps@) == ms.take(i as int).map_values(|m: MigrationModel| committed_step(m)),
    {
        let m = &migrations[i];
        let step = Step {
            index: m.index,
            name: m.name.clone(),
            path: copy_path(&m.path),
            next_name: Some(m.next_name.clone()),
            next_path: Some(copy_path(&m.next_path)),
        };
        assert(step@ == committed_step(ms[i as int]));
        let ghost before = step_views(steps@);
        steps.push(step);
        assert(step_views(steps@) =~= before.push(step@));
        assert(ms.take(i + 1).map_values(|m: MigrationModel| committed_step(m)) =~= ms.take(
            i as int,
        ).map_values(|m: MigrationModel| committed_step(m)).push(committed_step(ms[i as int])));
    }
    assert(ms.take(n as int) =~= ms);
    if args.current {
        if !current_is_dir {
            return Err(RegrateError::NoCurrentToRun);
        }
        let index = steps.len();
        let step = Step {
            index,
            name: pending_name,
            path: location("current"),
            next_name: None,
            next_path: None,
        };
        proof {
            reveal_strlit("current");
            assert("current"@ =~= current_dir());
        }
        steps.push(step);
        assert(step_views(steps@) =~= run_steps(ms, pending_name@, true));
    }
    Ok(steps)
}

/// The up script of a migration of the given kind.
pub open spec fn up_script(mode: InitType) -> Seq<char> {
    match mode {
        InitType::Shell => "up.sh"@,
        InitType::Mysql => "up.mysql"@,
        InitType::Postgres => "up.psql"@,
    }
}

/// The down script of a migration of the given kind.
pub open spec fn down_script(mode: InitType) -> Seq<char> {
    match mode {
        InitType::Shell => "down.sh"@,
        InitType::Mysql => "down.mysql"@,
        InitType::Postgres => "down.psql"@,
    }
}

/// The file names of the up and down scripts of a migration of the given
/// kind.
pub fn script_names(mode: InitType) -> (names: (&'static str, &'static str))
    ensures
        names.0@ == up_script(mode),
        names.1@ == down_script(mode),
{
    match mode {
        InitType::Shell => ("up.sh", "down.sh"),
        InitType::Mysql => ("up.mysql", "down.mysql"),
        InitType::Postgres => ("up.psql", "down.psql"),
    }
}

/// Why a run command's argument cannot be expanded.
pub enum ArgFailure {
    NextNameUnknown,
    NextPathUnknown,
    PathNotUtf8(Seq<Seq<char>>),
}

/// Whether a library error is the given expansion failure.
pub open spec fn is_failure(e: RegrateError, f: ArgFailure) -> bool {
    match f {
        ArgFailure::NextNameUnknown => e is NextNameUnknown,
        ArgFailure::NextPathUnknown => e is NextPathUnknown,
        ArgFailure::PathNotUtf8(p) => e matches RegrateError::PathNotUtf8(q) && q@ == p,
    }
}

/// The text of a path under the `regrate` directory, whose text is `root`
/// when it is valid UTF-8.
pub open spec fn path_arg(root: Option<Seq<char>>, path: Seq<Seq<char>>) -> Result<
    Seq<char>,
    ArgFailure,
> {
    match root {
        Some(r) => Ok(join_parts(r, path)),
        None => Err(ArgFailure::PathNotUtf8(path)),
    }
}

/// An argument of a run command for one step. Arguments that exactly match
/// a placeholder are replaced: `{name}`, `{path}`, `{up}`, `{down}`,
/// `{next-name}`, `{next-path}` (also with `_`); any other argument,
/// placeholders inside larger strings included, is kept as it is.
pub open spec fn expand_arg(step: StepModel, mode: InitType, root: Option<Seq<char>>, x: Seq<char>) -> Result<
    Seq<char>,
    ArgFailure,
> {
    if x == "{name}"@ {
        Ok(step.name)
    } else if x == "{path}"@ {
        path_arg(root, step.path)
    } else if x == "{up}"@ {
        path_arg(root, step.path.push(up_script(mode)))
    } else if x == "{down}"@ {
        path_arg(root, step.path.push(down_script(mode)))
    } else if x == "{next-name}"@ || x == "{next_name}"@ {
        match step.next_name {
            Some(n) => Ok(n),
            None => Err(ArgFailure::NextNameUnknown),
        }
    } else if x == "{next-path}"@ || x == "{next_path}"@ {
        match step.next_path {
            Some(p) => path_arg(root, p),
            None => Err(ArgFailure::NextPathUnknown),
        }
    } else {
        Ok(x)
    }
}

/// All arguments of a run command for one step, or the failure of the
/// first that cannot be expanded.
pub open spec fn expand_args(
    step: StepModel,
    mode: InitType,
    root: Option<Seq<char>>,
    command: Seq<Seq<char>>,
) -> Result<Seq<Seq<char>>, ArgFailure>
    decreases command.len(),
{
    if command.len() == 0 {
        Ok(seq![])
    } else {
        match expand_arg(step, mode, root, command[0]) {
            Err(f) => Err(f),
            Ok(a) => match expand_args(step, mode, root, command.drop_first()) {
                Err(f) => Err(f),
                Ok(rest) => Ok(seq![a] + rest),
            },
        }
    }
}

/// A command is expanded argument by argument: it expands when every
/// argument does, to the expansions in the same order, one for one; and
/// when some argument fails, the expansion fails as the first failing
/// argument does.
pub proof fn lemma_expand_args_pointwise(
    step: StepModel,
    mode: InitType,
    root: Option<Seq<char>>,
    command: Seq<Seq<char>>,
)
    ensures
        expand_args(step, mode, root, command) is Ok <==> forall|i: int|
            0 <= i < command.len() ==> #[trigger] expand_arg(step, mode, root, command[i]) is Ok,
        expand_args(step, mode, root, command) matches Ok(xs) ==> {
            &&& xs.len() == command.len()
            &&& forall|i: int|
                0 <= i < command.len() ==> expand_arg(step, mode, root, #[trigger] command[i]) == Ok::<
                    Seq<char>,
                    ArgFailure,
                >(xs[i])
        },
        expand_args(step, mode, root, command) matches Err(f) ==> exists|i: int|
            0 <= i < command.len() && #[trigger] expand_arg(step, mode, root, command[i]) == Err::<
                Seq<char>,
                ArgFailure,
            >(f) && forall|j: int| 0 <= j < i ==> #[trigger] expand_arg(step, mode, root, command[j]) is Ok,
    decreases command.len(),
{
    if command.len() > 0 {
        let rest = command.drop_first();
        lemma_expand_args_pointwise(step, mode, root, rest);
        assert forall|i: int| 0 < i < command.len() implies command[i] == rest[i - 1] by {}
        match expand_arg(step, mode, root, command[0]) {
            Err(f) => {
                assert(expand_arg(step, mode, root, command[0]) == Err::<Seq<char>, ArgFailure>(f));
            },
            Ok(a) => {
                match expand_args(step, mode, root, rest) {
                    Ok(r) => {
                        let xs = seq![a] + r;
                        assert forall|i: int|
                            0 <= i < command.len() implies expand_arg(
                            step,
                            mode,
                            root,
                            #[trigger] command[i],
                        ) == Ok::<Seq<char>, ArgFailure>(xs[i]) by {
                            if i > 0 {
                                assert(xs[i] == r[i - 1]);
                                assert(command[i] == rest[i - 1]);
                            }
                        }
                    },
                    Err(f) => {
                        let i = choose|i: int|
                            0 <= i < rest.len() && #[trigger] expand_arg(step, mode, root, rest[i])
                                == Err::<Seq<char>, ArgFailure>(f) && forall|j: int|
                                0 <= j < i ==> #[trigger] expand_arg(step, mode, root, rest[j]) is Ok;
                        assert(command[i + 1] == rest[i]);
                        assert forall|j: int| 0 <= j < i + 1 implies #[trigger] expand_arg(
                            step,
                            mode,
                            root,
                            command[j],
                        ) is Ok by {
                            if j > 0 {
                                assert(command[j] == rest[j - 1]);
                            }
                        }
                        assert(!(expand_arg(step, mode, root, command[i + 1]) is Ok));
                    },
                }
            },
        }
    }
}

/// A variable of a run command's environment.
pub enum EnvVar {
    /// `REGRATE_INDEX`: zero-based position in the chain
    Index(usize),
    /// `REGRATE_NAME`
    Name(String),
    /// `REGRATE_PATH`
    Path(RepoPath),
    /// `REGRATE_NEXT_NAME`
    NextName(String),
    /// `REGRATE_NEXT_PATH`
    NextPath(RepoPath),
}

/// The mathematical value of an [`EnvVar`].
pub enum EnvModel {
    Index(int),
    Name(Seq<char>),
    Path(Seq<Seq<char>>),
    NextName(Seq<char>),
    NextPath(Seq<Seq<char>>),
}

impl View for EnvVar {
    type V = EnvModel;

    open spec fn view(&self) -> EnvModel {
        match self {
            EnvVar::Index(i) => EnvModel::Index(*i as int),
            EnvVar::Name(n) => EnvModel::Name(n@),
            EnvVar::Path(p) => EnvModel::Path(p@),
            EnvVar::NextName(n) => EnvModel::NextName(n@),
            EnvVar::NextPath(p) => EnvModel::NextPath(p@),
        }
    }
}

/// The environment a step's command gets: its position, name and path,
/// and, for committed migrations, its successor's name and path.
pub open spec fn step_env(step: StepModel) -> Seq<EnvModel> {
    let base = seq![EnvModel::Index(step.index), EnvModel::Name(step.name), EnvModel::Path(step.path)];
    let with_name = match step.next_name {
        Some(n) => base.push(EnvModel::NextName(n)),
        None => base,
    };
    match step.next_path {
        Some(p) => with_name.push(EnvModel::NextPath(p)),
        None => with_name,
    }
}

/// Which variable an environment entry sets.
pub open spec fn env_key(e: EnvModel) -> int {
    match e {
        EnvModel::Index(_) => 0,
        EnvModel::Name(_) => 1,
        EnvModel::Path(_) => 2,
        EnvModel::NextName(_) => 3,
        EnvModel::NextPath(_) => 4,
    }
}

/// The environment of a step's command: `REGRATE_INDEX`, `REGRATE_NAME`
/// and `REGRATE_PATH` carry the step's position, name and path;
/// `REGRATE_NEXT_NAME` and `REGRATE_NEXT_PATH` are set exactly when the
/// step has a successor, to the successor's name and path (never the
/// step's own); and no variable is set twice.
pub proof fn lemma_step_env_values(step: StepModel)
    ensures
        ({
            let env = step_env(step);
            &&& forall|i: int|
                0 <= i < env.len() ==> match #[trigger] env[i] {
                    EnvModel::Index(n) => n == step.index,
                    EnvModel::Name(n) => n == step.name,
                    EnvModel::Path(p) => p == step.path,
                    EnvModel::NextName(n) => step.next_name == Some(n),
                    EnvModel::NextPath(p) => step.next_path == Some(p),
                }
            &&& env.contains(EnvModel::Index(step.index))
            &&& env.contains(EnvModel::Name(step.name))
            &&& env.contains(EnvModel::Path(step.path))
            &&& step.next_name matches Some(n) ==> env.contains(EnvModel::NextName(n))
            &&& step.next_path matches Some(p) ==> env.contains(EnvModel::NextPath(p))
            &&& step.next_name is None ==> forall|i: int|
                0 <= i < env.len() ==> !(#[trigger] env[i] is NextName)
            &&& step.next_path is None ==> forall|i: int|
                0 <= i < env.len() ==> !(#[trigger] env[i] is NextPath)
            &&& forall|i: int, j: int|
                0 <= i < j < env.len() ==> env_key(#[trigger] env[i]) != env_key(#[trigger] env[j])
        }),
{
    let env = step_env(step);
    let base = seq![EnvModel::Index(step.index), EnvModel::Name(step.name), EnvModel::Path(step.path)];
    let with_name = match step.next_name {
        Some(n) => base.push(EnvModel::NextName(n)),
        None => base,
    };
    assert(env[0] == EnvModel::Index(step.index));
    assert(env[1] == EnvModel::Name(step.name));
    assert(env[2] == EnvModel::Path(step.path));
    assert(forall|i: int| 0 <= i < with_name.len() ==> env[i] == with_name[i]);
    if let Some(n) = step.next_name {
        assert(env[3] == EnvModel::NextName(n));
    }
    if let Some(p) = step.next_path {
        assert(env[env.len() - 1] == EnvModel::NextPath(p));
    }
    assert forall|i: int, j: int|
        0 <= i < j < env.len() implies env_key(#[trigger] env[i]) != env_key(#[trigger] env[j]) by {
        assert(forall|k: int| 0 <= k < env.len() ==> env_key(#[trigger] env[k]) >= k);
        assert(forall|k: int| 0 <= k < env.len() ==> env_key(#[trigger] env[k]) <= k + (5 - env.len()));
        assert(env_key(env[i]) == i || env_key(env[j]) == j || (i <= 2 && env_key(env[i]) == i));
    }
}

/// What each placeholder of a run command stands for, with the `regrate`
/// directory's text `root`: `{name}` the step's name; `{path}`, `{up}` and
/// `{down}` the text of its directory and of its scripts; `{next-name}`
/// and `{next-path}` (the same with `_`) its successor's name and the text
/// of its successor's directory, or a failure when it has none. Any other
/// argument is kept as it is.
pub proof fn lemma_placeholders(step: StepModel, mode: InitType, root: Seq<char>, x: Seq<char>)
    ensures
        expand_arg(step, mode, Some(root), "{name}"@) == Ok::<Seq<char>, ArgFailure>(step.name),
        expand_arg(step, mode, Some(root), "{path}"@) == Ok::<Seq<char>, ArgFailure>(
            join_parts(root, step.path),
        ),
        expand_arg(step, mode, Some(root), "{up}"@) == Ok::<Seq<char>, ArgFailure>(
            join_parts(root, step.path.push(up_script(mode))),
        ),
        expand_arg(step, mode, Some(root), "{down}"@) == Ok::<Seq<char>, ArgFailure>(
            join_parts(root, step.path.push(down_script(mode))),
        ),
        expand_arg(step, mode, Some(root), "{next-name}"@) == expand_arg(step, mode, Some(root), "{next_name}"@),
        expand_arg(step, mode, Some(root), "{next-name}"@) == match step.next_name {
            Some(n) => Ok::<Seq<char>, ArgFailure>(n),
            None => Err(ArgFailure::NextNameUnknown),
        },
        expand_arg(step, mode, Some(root), "{next-path}"@) == expand_arg(step, mode, Some(root), "{next_path}"@),
        expand_arg(step, mode, Some(root), "{next-path}"@) == match step.next_path {
            Some(p) => Ok::<Seq<char>, ArgFailure>(join_parts(root, p)),
            None => Err(ArgFailure::NextPathUnknown),
        },
        expand_arg(step, mode, None, "{next-path}"@) == expand_arg(step, mode, None, "{next_path}"@),
        expand_arg(step, mode, None, "{next-path}"@) == match step.next_path {
            Some(p) => Err::<Seq<char>, ArgFailure>(ArgFailure::PathNotUtf8(p)),
            None => Err(ArgFailure::NextPathUnknown),
        },
        x != "{name}"@ && x != "{path}"@ && x != "{up}"@ && x != "{down}"@ && x != "{next-name}"@
            && x != "{next_name}"@ && x != "{next-path}"@ && x != "{next_path}"@ ==> expand_arg(
            step,
            mode,
            Some(root),
            x,
        ) == Ok::<Seq<char>, ArgFailure>(x),
{
    reveal_strlit("{name}");
    reveal_strlit("{path}");
    reveal_strlit("{up}");
    reveal_strlit("{down}");
    reveal_strlit("{next-name}");
    reveal_strlit("{next_name}");
    reveal_strlit("{next-path}");
    reveal_strlit("{next_path}");
    assert("{name}"@ != "{path}"@) by { assert("{name}"@[1] != "{path}"@[1]); }
    assert("{up}"@.len() != "{name}"@.len() && "{up}"@.len() != "{path}"@.len());
    assert("{down}"@ != "{name}"@) by { assert("{down}"@[1] != "{name}"@[1]); }
    assert("{down}"@ != "{path}"@) by { assert("{down}"@[1] != "{path}"@[1]); }
    assert("{down}"@ != "{up}"@);
    assert("{next-name}"@.len() > "{down}"@.len());
    assert("{next_name}"@.len() > "{down}"@.len());
    assert("{next-path}"@.len() > "{down}"@.len());
    assert("{next_path}"@.len() > "{down}"@.len());
    assert("{next-path}"@ != "{next-name}"@) by { assert("{next-path}"@[6] != "{next-name}"@[6]); }
    assert("{next-path}"@ != "{next_name}"@) by { assert("{next-path}"@[6] != "{next_name}"@[6]); }
    assert("{next_path}"@ != "{next-name}"@) by { assert("{next_path}"@[6] != "{next-name}"@[6]); }
    assert("{next_path}"@ != "{next_name}"@) by { assert("{next_path}"@[6] != "{next_name}"@[6]); }
}

/// The command that runs one step: the program, its arguments, and the
/// variables added to its environment.
pub struct Invocation {
    pub program: String,
    pub args: Vec<String>,
    pub env: Vec<EnvVar>,
}

/// The view of an optional root text.
pub open spec fn root_view(root: Option<&str>) -> Option<Seq<char>> {
    match root {
        Some(r) => Some(r@),
        None => None,
    }
}

/// The text of a path, which needs the `regrate` directory's text to be
/// valid UTF-8 (`root` is `None` when it is not).
pub fn path_str(root: Option<&str>, path: &RepoPath) -> (res: Result<String, RegrateError>)
    ensures
        match path_arg(root_view(root), path@) {
            Ok(t) => res matches Ok(s) && s@ == t,
            Err(f) => res matches Err(e) && is_failure(e, f),
        },
{
    match root {
        Some(r) => Ok(path_text(r, path)),
        None => Err(RegrateError::PathNotUtf8(copy_path(path))),
    }
}

fn literal(s: &str) -> (r: String)
    ensures
        r@ == s@,
{
    s.to_owned()
}

/// One argument of a run command, expanded for `step`.
fn expand_one(step: &Step, mode: InitType, root: Option<&str>, x: &String) -> (res: Result<
    String,
    RegrateError,
>)
    ensures
        match expand_arg(step@, mode, root_view(root), x@) {
            Ok(t) => res matches Ok(s) && s@ == t,
            Err(f) => res matches Err(e) && is_failure(e, f),
        },
{
    let (up, down) = script_names(mode);
    if *x == literal("{name}") {
        Ok(step.name.clone())
    } else if *x == literal("{path}") {
        path_str(root, &step.path)
    } else if *x == literal("{up}") {
        path_str(root, &child_path(&step.path, up))
    } else if *x == literal("{down}") {
        path_str(root, &child_path(&step.path, down))
    } else if *x == literal("{next-name}") || *x == literal("{next_name}") {
        match &step.next_name {
            Some(n) => Ok(n.clone()),
            None => Err(RegrateError::NextNameUnknown),
        }
    } else if *x == literal("{next-path}") || *x == literal("{next_path}") {
        match &step.next_path {
            Some(p) => path_str(root, p),
            None => Err(RegrateError::NextPathUnknown),
        }
    } else {
        Ok(x.clone())
    }
}

/// The command line and environment that run one step: the command's
/// arguments are expanded (see [`expand_arg`]), the first of them is the
/// program, and the environment is [`step_env`].
pub fn run_step(step: &Step, mode: InitType, command: &Vec<String>, root: Option<&str>) -> (res:
    Result<Invocation, RegrateError>)
    ensures
        match expand_args(step@, mode, root_view(root), views(command@)) {
            Err(f) => res matches Err(e) && is_failure(e, f),
            Ok(xs) => if xs.len() == 0 {
                res matches Err(e) && e is CommandRequired
            } else {
                &&& res matches Ok(inv)
                &&& inv.program@ == xs[0]
                &&& views(inv.args@) == xs.drop_first()
                &&& inv.env@.map_values(|v: EnvVar| v@) == step_env(step@)
            },
        },
{
    let ghost cmd = views(command@);
    let mut expanded: Vec<String> = Vec::new();
    for i in 0..command.len()
        invariant
            cmd == views(command@),
            expand_args(step@, mode, root_view(root), cmd) == match expand_args(
                step@,
                mode,
                root_view(root),
                cmd.skip(i as int),
            ) {
                Err(f) => Err(f),
                Ok(rest) => Ok(views(expanded@) + rest),
            },
    {
        let ghost tail = cmd.skip(i as int);
        assert(tail[0] == command@[i as int]@);
        assert(tail.drop_first() =~= cmd.skip(i + 1));
        match expand_one(step, mode, root, &command[i]) {
            Err(e) => {
                return Err(e);
            },
            Ok(a) => {
                let ghost before = views(expanded@);
                expanded.push(a);
                proof {
                    assert(views(expanded@) =~= before.push(a@));
                    if let Ok(rest) = expand_args(step@, mode, root_view(root), cmd.skip(i + 1)) {
                        assert(before + (seq![a@] + rest) =~= before.push(a@) + rest);
                    }
                }
            },
        }
    }
    assert(cmd.skip(command@.len() as int) =~= Seq::<Seq<char>>::empty());
    assert(views(expanded@) + seq![] =~= views(expanded@));
    if expanded.len() == 0 {
        return Err(RegrateError::CommandRequired);
    }
    let ghost all = views(expanded@);
    let program = expanded.remove(0);
    assert(views(expanded@) =~= all.drop_first());
    let mut env: Vec<EnvVar> = Vec::new();
    env.push(EnvVar::Index(step.index));
    env.push(EnvVar::Name(step.name.clone()));
    env.push(EnvVar::Path(copy_path(&step.path)));
    match &step.next_name {
        Some(n) => env.push(EnvVar::NextName(n.clone())),
        None => {},
    }
    match &step.next_path {
        Some(p) => env.push(EnvVar::NextPath(copy_path(p))),
        None => {},
    }
    assert(env@.map_values(|v: EnvVar| v@) =~= step_env(step@));
    Ok(Invocation { program, args: expanded, env })
}

/// What a run does next.
pub enum RunAction {
    /// Run the step at this position.
    Run(usize),
    /// The step at this position failed; the run stops with its error.
    Failed(usize),
    /// Every step ran and succeeded.
    Finished,
}

/// How a run of `total` steps starts: with the first step, if any.
pub fn first_action(total: usize) -> (a: RunAction)
    ensures
        total == 0 ==> a is Finished,
        total > 0 ==> (a matches RunAction::Run(i) && i == 0),
{
    if total == 0 {
        RunAction::Finished
    } else {
        RunAction::Run(0)
    }
}

/// What follows step `index` of `total`: a failed step stops the run, so
/// no later migration runs; a successful one hands over to the next step,
/// or finishes the run after the last.
pub fn after_step(total: usize, index: usize, succeeded: bool) -> (a: RunAction)
    requires
        index < total,
    ensures
        !succeeded ==> (a matches RunAction::Failed(i) && i == index),
        succeeded && index + 1 < total ==> (a matches RunAction::Run(i) && i == index + 1),
        succeeded && index + 1 == total ==> a is Finished,
{
    if !succeeded {
        RunAction::Failed(index)
    } else if index + 1 < total {
        RunAction::Run(index + 1)
    } else {
        RunAction::Finished
    }
}

} // verus!
