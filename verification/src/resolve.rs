//! Resolving a merge or rebase conflict in which both sides committed a
//! migration under the same name: upstream's version stays in the store and
//! the local version goes back to `current`, to be committed again on top
//! of the upstream chain.

use vstd::prelude::*;
use crate::paths::RepoPath;
use crate::run::current_dir;
use crate::text::{non_empty, sort_strings, sorted, split_on, split_str, str_le, views};
use crate::types::RegrateError;

verus! {

broadcast use vstd::seq_lib::group_seq_properties;

/// The commits that hold the two sides of the conflict, (local, upstream).
/// During a merge, our local branch is `HEAD` and what we are merging in is
/// `MERGE_HEAD`. A rebase replays our commits onto upstream, so the sides
/// swap: `HEAD` is upstream, and the local commit being replayed is
/// `REBASE_HEAD`.
pub open spec fn sides_of(rebasing: bool) -> (Seq<char>, Seq<char>) {
    if rebasing {
        ("REBASE_HEAD"@, "HEAD"@)
    } else {
        ("HEAD"@, "MERGE_HEAD"@)
    }
}

/// The commits that hold the two sides of the conflict, (local, upstream).
pub fn conflict_sides(rebasing: bool) -> (sides: (&'static str, &'static str))
    ensures
        (sides.0@, sides.1@) == sides_of(rebasing),
{
    if rebasing {
        ("REBASE_HEAD", "HEAD")
    } else {
        ("HEAD", "MERGE_HEAD")
    }
}

// ---------------------------------------------------------------------
// Path components
// ---------------------------------------------------------------------

/// The component that stands for the root of an absolute path.
pub open spec fn root_component() -> Seq<char> {
    seq!['/']
}

/// The component that stands for a leading `.`.
pub open spec fn cur_component() -> Seq<char> {
    seq!['.']
}

/// The pieces that name something: not empty and not `.`.
pub open spec fn normal_parts(v: Seq<Seq<char>>) -> Seq<Seq<char>>
    decreases v.len(),
{
    if v.len() == 0 {
        seq![]
    } else if v.last().len() == 0 || v.last() == cur_component() {
        normal_parts(v.drop_last())
    } else {
        normal_parts(v.drop_last()).push(v.last())
    }
}

/// The components of a path as `Path::components` gives them on Unix:
/// `/` for the root of an absolute path, `.` for a leading `./`, then every
/// piece between slashes except empty ones and `.`.
pub open spec fn path_components(s: Seq<char>) -> Seq<Seq<char>> {
    let pieces = split_on(s, '/');
    if s.len() > 0 && s[0] == '/' {
        seq![root_component()] + normal_parts(pieces.drop_first())
    } else if pieces.len() > 0 && pieces[0] == cur_component() {
        seq![cur_component()] + normal_parts(pieces.drop_first())
    } else {
        normal_parts(pieces)
    }
}

proof fn lemma_split_from_nonempty(s: Seq<char>, sep: char, start: int, i: int)
    ensures
        crate::text::split_from(s, sep, start, i).len() > 0,
    decreases s.len() - i,
{
    if 0 <= i < s.len() && s[i] != sep {
        lemma_split_from_nonempty(s, sep, start, i + 1);
    }
}

fn is_text(s: &String, t: &str) -> (r: bool)
    ensures
        r == (s@ == t@),
{
    *s == t.to_owned()
}

/// `normal_parts` of the pieces from position `from` on, appended to `out`.
fn push_normal_parts(out: &mut Vec<String>, pieces: &Vec<String>, from: usize)
    requires
        from <= pieces@.len(),
    ensures
        views(final(out)@) == views(old(out)@) + normal_parts(views(pieces@).skip(from as int)),
{
    let ghost start = views(out@);
    let ghost ps = views(pieces@).skip(from as int);
    let n = pieces.len();
    let mut i = from;
    while i < n
        invariant
            n == pieces@.len(),
            from <= i <= n,
            ps == views(pieces@).skip(from as int),
            views(out@) == start + normal_parts(ps.take(i - from)),
        decreases n - i,
    {
        let p = &pieces[i];
        let ghost before = views(out@);
        proof {
            let t = ps.take(i - from + 1);
            assert(t.drop_last() =~= ps.take(i - from));
            assert(t.last() == p@);
            reveal_strlit(".");
            assert("."@ =~= cur_component());
        }
        if !(p.as_str().is_empty() || is_text(p, ".")) {
            out.push(p.clone());
            assert(views(out@) =~= before.push(p@));
        } else {
        }
        i = i + 1;
    }
    assert(ps.take(n - from) =~= ps);
}

/// The components of a path (see [`path_components`]).
pub fn components(path: &str) -> (parts: Vec<String>)
    ensures
        views(parts@) == path_components(path@),
{
    let pieces = split_str(path, '/');
    proof {
        lemma_split_from_nonempty(path@, '/', 0, 0);
        reveal_strlit(".");
        reveal_strlit("/");
        assert("."@ =~= cur_component());
        assert("/"@ =~= root_component());
    }
    let mut out: Vec<String> = Vec::new();
    let cs = crate::text::chars_of(path);
    if cs.len() > 0 && cs[0] == '/' {
        out.push("/".to_owned());
        assert(views(out@) =~= seq![root_component()]);
        push_normal_parts(&mut out, &pieces, 1);
    } else if is_text(&pieces[0], ".") {
        out.push(".".to_owned());
        assert(views(out@) =~= seq![cur_component()]);
        push_normal_parts(&mut out, &pieces, 1);
    } else {
        push_normal_parts(&mut out, &pieces, 0);
    }
    assert(views(pieces@).skip(1) =~= views(pieces@).drop_first());
    assert(views(pieces@).skip(0) =~= views(pieces@));
    out
}

// ---------------------------------------------------------------------
// Which conflicted files belong to which migration
// ---------------------------------------------------------------------

/// The `regrate` directory component.
pub open spec fn regrate_dir() -> Seq<char> {
    seq!['r', 'e', 'g', 'r', 'a', 't', 'e']
}

/// The components of the store directory relative to the repository root:
/// the working directory made relative to the top level (nothing when it is
/// not inside it), then `regrate/store`.
pub open spec fn store_prefix_of(cwd: Seq<Seq<char>>, toplevel: Seq<Seq<char>>) -> Seq<Seq<char>> {
    let rel = if toplevel.len() <= cwd.len() && cwd.subrange(0, toplevel.len() as int) == toplevel {
        cwd.subrange(toplevel.len() as int, cwd.len() as int)
    } else {
        seq![]
    };
    rel + seq![regrate_dir(), crate::paths::store_dir()]
}

/// Whether `prefix` is the start of `v`.
fn starts_with(v: &Vec<String>, prefix: &Vec<String>) -> (r: bool)
    ensures
        r == (prefix@.len() <= v@.len() && views(v@).subrange(0, prefix@.len() as int) == views(
            prefix@,
        )),
{
    if prefix.len() > v.len() {
        return false;
    }
    let mut i: usize = 0;
    while i < prefix.len()
        invariant
            prefix@.len() <= v@.len(),
            i <= prefix@.len(),
            views(v@).subrange(0, i as int) == views(prefix@).subrange(0, i as int),
        decreases prefix.len() - i,
    {
        if v[i] != prefix[i] {
            assert(views(v@).subrange(0, prefix@.len() as int)[i as int] != views(prefix@)[i as int]);
            return false;
        }
        assert(views(v@).subrange(0, i + 1) =~= views(v@).subrange(0, i as int).push(v@[i as int]@));
        assert(views(prefix@).subrange(0, i + 1) =~= views(prefix@).subrange(0, i as int).push(
            prefix@[i as int]@,
        ));
        i = i + 1;
    }
    assert(views(prefix@).subrange(0, prefix@.len() as int) =~= views(prefix@));
    true
}

/// `v` from position `from` on.
fn tail_from(v: &Vec<String>, from: usize) -> (t: Vec<String>)
    requires
        from <= v@.len(),
    ensures
        views(t@) == views(v@).subrange(from as int, v@.len() as int),
{
    let mut t: Vec<String> = Vec::new();
    let mut i = from;
    while i < v.len()
        invariant
            from <= i <= v@.len(),
            views(t@) == views(v@).subrange(from as int, i as int),
        decreases v.len() - i,
    {
        let ghost before = views(t@);
        t.push(v[i].clone());
        assert(views(t@) =~= before.push(v@[i as int]@));
        assert(views(t@) =~= views(v@).subrange(from as int, i + 1));
        i = i + 1;
    }
    t
}

/// `v` up to position `to`.
fn head_to(v: &Vec<String>, to: usize) -> (t: Vec<String>)
    requires
        to <= v@.len(),
    ensures
        views(t@) == views(v@).subrange(0, to as int),
{
    let mut t: Vec<String> = Vec::new();
    let mut i: usize = 0;
    while i < to
        invariant
            i <= to <= v@.len(),
            views(t@) == views(v@).subrange(0, i as int),
        decreases to - i,
    {
        let ghost before = views(t@);
        t.push(v[i].clone());
        assert(views(t@) =~= before.push(v@[i as int]@));
        assert(views(t@) =~= views(v@).subrange(0, i + 1));
        i = i + 1;
    }
    t
}

/// The components of the store directory relative to the repository root
/// (see [`store_prefix_of`]), from the components of the working directory
/// and of the repository's top level.
pub fn store_prefix(cwd: &Vec<String>, toplevel: &Vec<String>) -> (prefix: Vec<String>)
    ensures
        views(prefix@) == store_prefix_of(views(cwd@), views(toplevel@)),
{
    let mut prefix = if starts_with(cwd, toplevel) {
        tail_from(cwd, toplevel.len())
    } else {
        Vec::new()
    };
    let ghost rel = views(prefix@);
    prefix.push("regrate".to_owned());
    prefix.push("store".to_owned());
    proof {
        reveal_strlit("regrate");
        reveal_strlit("store");
        assert("regrate"@ =~= regrate_dir());
        assert("store"@ =~= crate::paths::store_dir());
        assert(views(prefix@) =~= rel + seq![regrate_dir(), crate::paths::store_dir()]);
    }
    prefix
}

/// Where `regrate/store` lies relative to the repository root. Inside the
/// top level, the working directory's own components below it come first,
/// however deep it lies: appending the store prefix to the top level gives
/// the working directory followed by `regrate/store`. Outside the top level
/// the prefix is `regrate/store` alone.
pub proof fn lemma_store_prefix_below_toplevel(cwd: Seq<Seq<char>>, toplevel: Seq<Seq<char>>)
    ensures
        toplevel.len() <= cwd.len() && cwd.subrange(0, toplevel.len() as int) == toplevel ==> toplevel
            + store_prefix_of(cwd, toplevel) == cwd + seq![regrate_dir(), crate::paths::store_dir()],
        !(toplevel.len() <= cwd.len() && cwd.subrange(0, toplevel.len() as int) == toplevel)
            ==> store_prefix_of(cwd, toplevel) == seq![regrate_dir(), crate::paths::store_dir()],
        store_prefix_of(cwd, toplevel).len() >= 2,
        store_prefix_of(cwd, toplevel).subrange(
            store_prefix_of(cwd, toplevel).len() - 2,
            store_prefix_of(cwd, toplevel).len() as int,
        ) == seq![regrate_dir(), crate::paths::store_dir()],
{
    let tail = seq![regrate_dir(), crate::paths::store_dir()];
    let sp = store_prefix_of(cwd, toplevel);
    if toplevel.len() <= cwd.len() && cwd.subrange(0, toplevel.len() as int) == toplevel {
        let rel = cwd.subrange(toplevel.len() as int, cwd.len() as int);
        assert(cwd =~= toplevel + rel);
        assert(toplevel + (rel + tail) =~= (toplevel + rel) + tail);
        assert(sp.subrange(sp.len() - 2, sp.len() as int) =~= tail);
    } else {
        assert(sp =~= tail);
    }
}

/// A conflicted file inside the store.
pub struct ConflictEntry {
    /// The migration it belongs to: its two store components run together.
    pub migration: String,
    /// Its path relative to the repository root, as git reported it.
    pub repo_path: String,
    /// Its path inside the migration directory.
    pub rel: Vec<String>,
    /// The migration directory's components, from the repository root.
    pub dir: Vec<String>,
}

/// The mathematical value of a [`ConflictEntry`].
pub struct ConflictModel {
    pub migration: Seq<char>,
    pub repo_path: Seq<char>,
    pub rel: Seq<Seq<char>>,
    pub dir: Seq<Seq<char>>,
}

impl View for ConflictEntry {
    type V = ConflictModel;

    open spec fn view(&self) -> ConflictModel {
        ConflictModel {
            migration: self.migration@,
            repo_path: self.repo_path@,
            rel: views(self.rel@),
            dir: views(self.dir@),
        }
    }
}

/// The views of a list of conflicted files.
pub open spec fn entry_views(es: Seq<ConflictEntry>) -> Seq<ConflictModel> {
    es.map_values(|e: ConflictEntry| e@)
}

/// The conflicted file at `path` when it lies in a migration directory of
/// the store (whose components are `prefix`).
pub open spec fn conflict_entry(path: Seq<char>, prefix: Seq<Seq<char>>) -> Option<ConflictModel> {
    let comps = path_components(path);
    let k = prefix.len() as int;
    if comps.len() >= k + 2 && comps.subrange(0, k) == prefix {
        Some(
            ConflictModel {
                migration: comps[k] + comps[k + 1],
                repo_path: path,
                rel: comps.subrange(k + 2, comps.len() as int),
                dir: comps.subrange(0, k + 2),
            },
        )
    } else {
        None
    }
}

/// The conflicted files of `paths` that lie in migration directories of
/// the store, in order.
pub open spec fn conflict_entries(paths: Seq<Seq<char>>, prefix: Seq<Seq<char>>) -> Seq<ConflictModel>
    decreases paths.len(),
{
    if paths.len() == 0 {
        seq![]
    } else {
        let rest = conflict_entries(paths.drop_last(), prefix);
        match conflict_entry(paths.last(), prefix) {
            Some(e) => rest.push(e),
            None => rest,
        }
    }
}

/// The paths that git printed with `-z` (unmerged paths, tree listings):
/// the non-empty pieces between zero characters.
pub open spec fn nul_list(output: Seq<char>) -> Seq<Seq<char>> {
    non_empty(split_on(output, '\0'))
}

/// The paths of git's `-z` output (see [`nul_list`]).
pub fn nul_separated(output: &str) -> (paths: Vec<String>)
    ensures
        views(paths@) == nul_list(output@),
{
    let pieces = split_str(output, '\0');
    let ghost ps = views(pieces@);
    let mut paths: Vec<String> = Vec::new();
    for i in 0..pieces.len()
        invariant
            ps == views(pieces@),
            views(paths@) == non_empty(ps.take(i as int)),
    {
        let p = &pieces[i];
        let ghost before = views(paths@);
        proof {
            let t = ps.take(i + 1);
            assert(t.drop_last() =~= ps.take(i as int));
            assert(t.last() == p@);
        }
        if !p.as_str().is_empty() {
            paths.push(p.clone());
            assert(views(paths@) =~= before.push(p@));
        }
    }
    assert(ps.take(pieces@.len() as int) =~= ps);
    paths
}

/// The conflicted file at `path`, if it lies in a migration directory of
/// the store (see [`conflict_entry`]).
pub fn conflict_entry_of(path: &String, prefix: &Vec<String>) -> (e: Option<ConflictEntry>)
    ensures
        match conflict_entry(path@, views(prefix@)) {
            Some(m) => e matches Some(x) && x@ == m,
            None => e is None,
        },
{
    let comps = components(path.as_str());
    let k = prefix.len();
    if comps.len() < 2 || comps.len() - 2 < k {
        return None;
    }
    if !starts_with(&comps, prefix) {
        return None;
    }
    let migration = comps[k].clone().concat(comps[k + 1].as_str());
    let rel = tail_from(&comps, k + 2);
    let dir = head_to(&comps, k + 2);
    Some(ConflictEntry { migration, repo_path: path.clone(), rel, dir })
}

/// The conflicted files among `paths` that lie in migration directories of
/// the store (see [`conflict_entries`]).
pub fn conflict_entries_of(paths: &Vec<String>, prefix: &Vec<String>) -> (es: Vec<ConflictEntry>)
    ensures
        entry_views(es@) == conflict_entries(views(paths@), views(prefix@)),
{
    let ghost ps = views(paths@);
    let mut es: Vec<ConflictEntry> = Vec::new();
    for i in 0..paths.len()
        invariant
            ps == views(paths@),
            entry_views(es@) == conflict_entries(ps.take(i as int), views(prefix@)),
    {
        let ghost before = entry_views(es@);
        proof {
            let t = ps.take(i + 1);
            assert(t.drop_last() =~= ps.take(i as int));
            assert(t.last() == paths@[i as int]@);
        }
        match conflict_entry_of(&paths[i], prefix) {
            Some(e) => {
                es.push(e);
                assert(entry_views(es@) =~= before.push(es@.last()@));
            },
            None => {},
        }
    }
    assert(ps.take(paths@.len() as int) =~= ps);
    es
}

// ---------------------------------------------------------------------
// What `regrate resolve` does with the conflicted files
// ---------------------------------------------------------------------

/// Whether all conflicted files belong to the first one's migration.
pub open spec fn same_migration(es: Seq<ConflictModel>) -> bool {
    forall|i: int| 0 <= i < es.len() ==> (#[trigger] es[i]).migration == es[0].migration
}

/// The migrations that conflicted files belong to.
pub open spec fn migrations_of(es: Seq<ConflictModel>) -> Set<Seq<char>> {
    Set::new(|m: Seq<char>| exists|i: int| 0 <= i < es.len() && (#[trigger] es[i]).migration == m)
}

/// What `regrate resolve` goes on to do.
pub enum ResolvePlan {
    /// No conflicted file lies in the store.
    NothingToResolve,
    /// The conflicts all belong to `migration`, whose directory is `dir`
    /// (components from the repository root); `unmerged` are the
    /// conflicted paths.
    Resolve { migration: String, dir: Vec<String>, unmerged: Vec<String> },
}

/// Whether some string of `v` equals `s`.
fn contains_string(v: &Vec<String>, s: &String) -> (r: bool)
    ensures
        r == views(v@).contains(s@),
{
    let mut i: usize = 0;
    while i < v.len()
        invariant
            i <= v@.len(),
            forall|k: int| 0 <= k < i ==> views(v@)[k] != s@,
        decreases v.len() - i,
    {
        if v[i] == *s {
            assert(views(v@)[i as int] == s@);
            return true;
        }
        i = i + 1;
    }
    false
}

/// The migrations that conflicted files belong to, each once, sorted.
fn migration_keys(es: &Vec<ConflictEntry>) -> (keys: Vec<String>)
    ensures
        sorted(views(keys@)),
        views(keys@).no_duplicates(),
        views(keys@).to_set() == migrations_of(entry_views(es@)),
{
    let ghost ev = entry_views(es@);
    let mut keys: Vec<String> = Vec::new();
    for i in 0..es.len()
        invariant
            ev == entry_views(es@),
            views(keys@).no_duplicates(),
            forall|m: Seq<char>| #[trigger]
                views(keys@).contains(m) <==> exists|k: int|
                    0 <= k < i && (#[trigger] ev[k]).migration == m,
    {
        let key = &es[i].migration;
        if !contains_string(&keys, key) {
            let ghost before = views(keys@);
            keys.push(key.clone());
            assert(views(keys@) =~= before.push(key@));
            assert forall|m: Seq<char>| #[trigger]
                views(keys@).contains(m) <==> exists|k: int|
                    0 <= k < i + 1 && (#[trigger] ev[k]).migration == m by {
                if m == key@ {
                    assert(ev[i as int].migration == m);
                    assert(views(keys@)[before.len() as int] == m);
                }
                if views(keys@).contains(m) && m != key@ {
                    assert(before.contains(m));
                }
            }
        } else {
            assert forall|m: Seq<char>| #[trigger]
                views(keys@).contains(m) <==> exists|k: int|
                    0 <= k < i + 1 && (#[trigger] ev[k]).migration == m by {
                if m == key@ {
                    assert(ev[i as int].migration == m);
                }
            }
        }
    }
    let ghost unsorted = views(keys@);
    let sorted_keys = sort_strings(keys);
    proof {
        let sv = views(sorted_keys@);
        unsorted.lemma_multiset_has_no_duplicates();
        assert forall|x: Seq<char>| sv.to_multiset().contains(x) implies sv.to_multiset().count(x) == 1 by {
            assert(unsorted.to_multiset().contains(x));
        }
        sv.lemma_multiset_has_no_duplicates_conv();
        assert forall|m: Seq<char>| sv.to_set().contains(m) <==> migrations_of(ev).contains(m) by {
            vstd::seq_lib::to_multiset_contains(sv, m);
            vstd::seq_lib::to_multiset_contains(unsorted, m);
        }
        assert(sv.to_set() =~= migrations_of(ev));
    }
    sorted_keys
}

/// Decides what `regrate resolve` does, from git's list of unmerged paths
/// (`-z` output), the components of the store directory relative to the
/// repository root, and whether a `current` migration exists. The
/// conflicted files inside the store must all belong to one migration; it
/// is then resolved as [`plan_resolve_files`] says.
pub fn plan_resolve(unmerged: &str, store_prefix: &Vec<String>, current_exists: bool) -> (res: Result<
    ResolvePlan,
    RegrateError,
>)
    ensures
        ({
            let es = conflict_entries(nul_list(unmerged@), views(store_prefix@));
            if es.len() == 0 {
                res matches Ok(ResolvePlan::NothingToResolve)
            } else if !same_migration(es) {
                &&& res matches Err(RegrateError::ConflictsSpanMigrations(keys))
                &&& sorted(views(keys@))
                &&& views(keys@).no_duplicates()
                &&& views(keys@).to_set() == migrations_of(es)
            } else if current_exists {
                res matches Err(e) && e is CurrentBlocksResolve
            } else {
                &&& res matches Ok(ResolvePlan::Resolve { migration, dir, unmerged: paths })
                &&& migration@ == es[0].migration
                &&& views(dir@) == es[0].dir
                &&& views(paths@) == es.map_values(|e: ConflictModel| e.repo_path)
            }
        }),
{
    let paths = nul_separated(unmerged);
    let es = conflict_entries_of(&paths, store_prefix);
    let ghost ev = entry_views(es@);
    if es.len() == 0 {
        return Ok(ResolvePlan::NothingToResolve);
    }
    let first = &es[0].migration;
    let mut i: usize = 1;
    while i < es.len()
        invariant
            ev == entry_views(es@),
            ev == conflict_entries(nul_list(unmerged@), views(store_prefix@)),
            es@.len() > 0,
            first@ == ev[0].migration,
            1 <= i <= es@.len(),
            forall|k: int| 0 <= k < i ==> (#[trigger] ev[k]).migration == ev[0].migration,
        decreases es.len() - i,
    {
        if es[i].migration != *first {
            assert(ev[i as int].migration != ev[0].migration);
            assert(!same_migration(ev));
            let keys = migration_keys(&es);
            return Err(RegrateError::ConflictsSpanMigrations(keys));
        }
        i = i + 1;
    }
    if current_exists {
        return Err(RegrateError::CurrentBlocksResolve);
    }
    let mut conflicted: Vec<String> = Vec::new();
    for j in 0..es.len()
        invariant
            ev == entry_views(es@),
            ev == conflict_entries(nul_list(unmerged@), views(store_prefix@)),
            views(conflicted@) == ev.take(j as int).map_values(|e: ConflictModel| e.repo_path),
    {
        let ghost before = views(conflicted@);
        conflicted.push(es[j].repo_path.clone());
        assert(views(conflicted@) =~= before.push(ev[j as int].repo_path));
        assert(ev.take(j + 1).map_values(|e: ConflictModel| e.repo_path) =~= ev.take(j as int).map_values(
            |e: ConflictModel| e.repo_path,
        ).push(ev[j as int].repo_path));
    }
    assert(ev.take(es@.len() as int) =~= ev);
    let dir = es[0].dir.clone();
    assert(views(dir@) =~= views(es@[0].dir@));
    Ok(ResolvePlan::Resolve { migration: es[0].migration.clone(), dir, unmerged: conflicted })
}

// ---------------------------------------------------------------------
// Which files of the migration go where
// ---------------------------------------------------------------------

/// A file of a migration directory in one side's tree.
pub struct TreeFile {
    /// Its path from the repository root, as git listed it.
    pub path: String,
    /// Its path inside the migration directory.
    pub rel: Vec<String>,
}

/// The mathematical value of a [`TreeFile`].
pub struct TreeFileModel {
    pub path: Seq<char>,
    pub rel: Seq<Seq<char>>,
}

impl View for TreeFile {
    type V = TreeFileModel;

    open spec fn view(&self) -> TreeFileModel {
        TreeFileModel { path: self.path@, rel: views(self.rel@) }
    }
}

/// The views of a list of tree files.
pub open spec fn tree_views(fs: Seq<TreeFile>) -> Seq<TreeFileModel> {
    fs.map_values(|f: TreeFile| f@)
}

/// The file at `path`, if it lies inside the directory `dir`.
pub open spec fn tree_file(path: Seq<char>, dir: Seq<Seq<char>>) -> Option<TreeFileModel> {
    let comps = path_components(path);
    if comps.len() > dir.len() && comps.subrange(0, dir.len() as int) == dir {
        Some(TreeFileModel { path, rel: comps.subrange(dir.len() as int, comps.len() as int) })
    } else {
        None
    }
}

/// The files among `paths` that lie inside `dir`, in order.
pub open spec fn tree_files(paths: Seq<Seq<char>>, dir: Seq<Seq<char>>) -> Seq<TreeFileModel>
    decreases paths.len(),
{
    if paths.len() == 0 {
        seq![]
    } else {
        let rest = tree_files(paths.drop_last(), dir);
        match tree_file(paths.last(), dir) {
            Some(f) => rest.push(f),
            None => rest,
        }
    }
}

/// Whether some file of `fs` has the relative path `rel`.
pub open spec fn has_rel(fs: Seq<TreeFileModel>, rel: Seq<Seq<char>>) -> bool {
    exists|i: int| 0 <= i < fs.len() && (#[trigger] fs[i]).rel == rel
}

/// The paths of the files of `local` that `upstream` does not have.
pub open spec fn local_only(local: Seq<TreeFileModel>, upstream: Seq<TreeFileModel>) -> Seq<Seq<char>>
    decreases local.len(),
{
    if local.len() == 0 {
        seq![]
    } else {
        let rest = local_only(local.drop_last(), upstream);
        if has_rel(upstream, local.last().rel) {
            rest
        } else {
            rest.push(local.last().path)
        }
    }
}

/// The argument of `git show` that reads `path` at commit `side`.
pub open spec fn show_arg(side: Seq<char>, path: Seq<char>) -> Seq<char> {
    side + seq![':'] + path
}

/// A file of the local side to write under `current`.
pub struct FileCopy {
    /// The `git show` argument that reads it.
    pub source: String,
    /// Where it goes.
    pub dest: RepoPath,
}

impl View for FileCopy {
    type V = (Seq<char>, Seq<Seq<char>>);

    open spec fn view(&self) -> (Seq<char>, Seq<Seq<char>>) {
        (self.source@, self.dest@)
    }
}

/// A file of the upstream side to write back into the store.
pub struct StoreWrite {
    /// The `git show` argument that reads it.
    pub source: String,
    /// Its path from the repository root.
    pub repo_path: String,
}

impl View for StoreWrite {
    type V = (Seq<char>, Seq<char>);

    open spec fn view(&self) -> (Seq<char>, Seq<char>) {
        (self.source@, self.repo_path@)
    }
}

/// What resolving one migration does to the files.
pub struct ResolveFiles {
    /// Every file of the local side, into `current`.
    pub to_current: Vec<FileCopy>,
    /// Every file of the upstream side, back into the store.
    pub to_store: Vec<StoreWrite>,
    /// The files that only the local side has, out of the store.
    pub to_remove: Vec<String>,
    /// The paths to stage: the conflicted ones and all written or removed.
    pub to_stage: Vec<String>,
}

/// The local side's files, each read at `side` and written under `current`.
pub open spec fn local_copies(side: Seq<char>, local: Seq<TreeFileModel>) -> Seq<
    (Seq<char>, Seq<Seq<char>>),
> {
    local.map_values(|f: TreeFileModel| (show_arg(side, f.path), seq![current_dir()] + f.rel))
}

/// The upstream side's files, each read at `side` and written back.
pub open spec fn upstream_writes(side: Seq<char>, upstream: Seq<TreeFileModel>) -> Seq<
    (Seq<char>, Seq<char>),
> {
    upstream.map_values(|f: TreeFileModel| (show_arg(side, f.path), f.path))
}

/// The files among `paths` that lie inside `dir` (see [`tree_files`]).
pub fn tree_files_of(paths: &Vec<String>, dir: &Vec<String>) -> (fs: Vec<TreeFile>)
    ensures
        tree_views(fs@) == tree_files(views(paths@), views(dir@)),
{
    let ghost ps = views(paths@);
    let mut fs: Vec<TreeFile> = Vec::new();
    for i in 0..paths.len()
        invariant
            ps == views(paths@),
            tree_views(fs@) == tree_files(ps.take(i as int), views(dir@)),
    {
        let ghost before = tree_views(fs@);
        proof {
            let t = ps.take(i + 1);
            assert(t.drop_last() =~= ps.take(i as int));
            assert(t.last() == paths@[i as int]@);
        }
        let comps = components(paths[i].as_str());
        if comps.len() > dir.len() && starts_with(&comps, dir) {
            let rel = tail_from(&comps, dir.len());
            let f = TreeFile { path: paths[i].clone(), rel };
            fs.push(f);
            assert(tree_views(fs@) =~= before.push(fs@.last()@));
        }
    }
    assert(ps.take(paths@.len() as int) =~= ps);
    fs
}

/// Whether two lists of strings are equal.
fn same_parts(a: &Vec<String>, b: &Vec<String>) -> (r: bool)
    ensures
        r == (views(a@) == views(b@)),
{
    if a.len() != b.len() {
        return false;
    }
    let mut i: usize = 0;
    while i < a.len()
        invariant
            a@.len() == b@.len(),
            i <= a@.len(),
            views(a@).take(i as int) == views(b@).take(i as int),
        decreases a.len() - i,
    {
        if a[i] != b[i] {
            assert(views(a@)[i as int] != views(b@)[i as int]);
            return false;
        }
        assert(views(a@).take(i + 1) =~= views(a@).take(i as int).push(a@[i as int]@));
        assert(views(b@).take(i + 1) =~= views(b@).take(i as int).push(b@[i as int]@));
        i = i + 1;
    }
    assert(views(a@).take(a@.len() as int) =~= views(a@));
    assert(views(b@).take(b@.len() as int) =~= views(b@));
    true
}

/// Whether some file of `fs` has the relative path `rel`.
fn has_rel_of(fs: &Vec<TreeFile>, rel: &Vec<String>) -> (r: bool)
    ensures
        r == has_rel(tree_views(fs@), views(rel@)),
{
    let mut i: usize = 0;
    while i < fs.len()
        invariant
            i <= fs@.len(),
            forall|k: int| 0 <= k < i ==> (#[trigger] tree_views(fs@)[k]).rel != views(rel@),
        decreases fs.len() - i,
    {
        if same_parts(&fs[i].rel, rel) {
            assert(tree_views(fs@)[i as int].rel == views(rel@));
            return true;
        }
        i = i + 1;
    }
    false
}

fn show_arg_of(side: &str, path: &String) -> (s: String)
    ensures
        s@ == show_arg(side@, path@),
{
    let mut s = side.to_owned();
    s.append(":");
    s.append(path.as_str());
    proof {
        reveal_strlit(":");
    }
    assert(s@ =~= show_arg(side@, path@));
    s
}

/// What resolving the migration in directory `dir` (components from the
/// repository root) does to the files, given the conflicted paths and the
/// `-z` listings of the migration's tree at the local and the upstream
/// side (`git ls-tree -r -z --name-only --full-tree`): every local file is
/// written under `current`, every upstream file is written back into the
/// store, and the files that only the local side has leave the store. The
/// merged tree holds only files of the two sides, so the store then holds
/// exactly upstream's files, `current` holds the local migration whole, and
/// staging every conflicted, written and removed path leaves nothing of
/// the migration unmerged.
pub fn plan_resolve_files(
    dir: &Vec<String>,
    unmerged: &Vec<String>,
    local_listing: &str,
    upstream_listing: &str,
    rebasing: bool,
) -> (r: ResolveFiles)
    ensures
        ({
            let (local_side, upstream_side) = sides_of(rebasing);
            let local = tree_files(nul_list(local_listing@), views(dir@));
            let upstream = tree_files(nul_list(upstream_listing@), views(dir@));
            &&& r.to_current@.map_values(|c: FileCopy| c@) == local_copies(local_side, local)
            &&& r.to_store@.map_values(|w: StoreWrite| w@) == upstream_writes(upstream_side, upstream)
            &&& views(r.to_remove@) == local_only(local, upstream)
            &&& views(r.to_stage@) == views(unmerged@) + upstream.map_values(|f: TreeFileModel| f.path)
                + local_only(local, upstream)
        }),
{
    let (local_side, upstream_side) = conflict_sides(rebasing);
    let local = tree_files_of(&nul_separated(local_listing), dir);
    let upstream = tree_files_of(&nul_separated(upstream_listing), dir);
    let ghost lv = tree_views(local@);
    let ghost uv = tree_views(upstream@);

    let mut to_current: Vec<FileCopy> = Vec::new();
    for i in 0..local.len()
        invariant
            lv == tree_views(local@),
            to_current@.map_values(|c: FileCopy| c@) == local_copies(local_side@, lv.take(i as int)),
    {
        let f = &local[i];
        let mut parts: Vec<String> = Vec::new();
        parts.push("current".to_owned());
        let mut j: usize = 0;
        proof {
            reveal_strlit("current");
            assert("current"@ =~= current_dir());
            assert(views(parts@) =~= seq![current_dir()] + views(f.rel@).take(0));
        }
        while j < f.rel.len()
            invariant
                j <= f.rel@.len(),
                views(parts@) == seq![current_dir()] + views(f.rel@).take(j as int),
            decreases f.rel.len() - j,
        {
            let ghost b = views(parts@);
            parts.push(f.rel[j].clone());
            assert(views(parts@) =~= b.push(f.rel@[j as int]@));
            assert(views(f.rel@).take(j + 1) =~= views(f.rel@).take(j as int).push(f.rel@[j as int]@));
            assert(views(parts@) =~= seq![current_dir()] + views(f.rel@).take(j + 1));
            j = j + 1;
        }
        assert(views(f.rel@).take(f.rel@.len() as int) =~= views(f.rel@));
        let c = FileCopy { source: show_arg_of(local_side, &f.path), dest: RepoPath { parts } };
        let ghost before = to_current@.map_values(|c: FileCopy| c@);
        to_current.push(c);
        assert(to_current@.map_values(|c: FileCopy| c@) =~= before.push(c@));
        assert(local_copies(local_side@, lv.take(i + 1)) =~= local_copies(local_side@, lv.take(i as int)).push(
            c@,
        ));
    }
    assert(lv.take(local@.len() as int) =~= lv);

    let mut to_store: Vec<StoreWrite> = Vec::new();
    let mut to_stage: Vec<String> = Vec::new();
    for i in 0..unmerged.len()
        invariant
            views(to_stage@) == views(unmerged@).take(i as int),
    {
        let ghost before = views(to_stage@);
        to_stage.push(unmerged[i].clone());
        assert(views(to_stage@) =~= before.push(unmerged@[i as int]@));
        assert(views(unmerged@).take(i + 1) =~= views(unmerged@).take(i as int).push(unmerged@[i as int]@));
    }
    assert(views(unmerged@).take(unmerged@.len() as int) =~= views(unmerged@));
    let ghost staged = views(to_stage@);
    for i in 0..upstream.len()
        invariant
            uv == tree_views(upstream@),
            staged == views(unmerged@),
            to_store@.map_values(|w: StoreWrite| w@) == upstream_writes(upstream_side@, uv.take(i as int)),
            views(to_stage@) == staged + uv.take(i as int).map_values(|f: TreeFileModel| f.path),
    {
        let f = &upstream[i];
        let w = StoreWrite { source: show_arg_of(upstream_side, &f.path), repo_path: f.path.clone() };
        let ghost before = to_store@.map_values(|w: StoreWrite| w@);
        let ghost sbefore = views(to_stage@);
        to_store.push(w);
        to_stage.push(f.path.clone());
        assert(to_store@.map_values(|w: StoreWrite| w@) =~= before.push(w@));
        assert(upstream_writes(upstream_side@, uv.take(i + 1)) =~= upstream_writes(
            upstream_side@,
            uv.take(i as int),
        ).push(w@));
        assert(views(to_stage@) =~= sbefore.push(f.path@));
        assert(uv.take(i + 1).map_values(|f: TreeFileModel| f.path) =~= uv.take(i as int).map_values(
            |f: TreeFileModel| f.path,
        ).push(uv[i as int].path));
    }
    assert(uv.take(upstream@.len() as int) =~= uv);
    let ghost staged2 = views(to_stage@);

    let mut to_remove: Vec<String> = Vec::new();
    for i in 0..local.len()
        invariant
            lv == tree_views(local@),
            uv == tree_views(upstream@),
            views(to_remove@) == local_only(lv.take(i as int), uv),
            views(to_stage@) == staged2 + views(to_remove@),
    {
        let f = &local[i];
        let ghost before = views(to_remove@);
        let ghost sbefore = views(to_stage@);
        proof {
            let t = lv.take(i + 1);
            assert(t.drop_last() =~= lv.take(i as int));
            assert(t.last() == f@);
        }
        if !has_rel_of(&upstream, &f.rel) {
            to_remove.push(f.path.clone());
            to_stage.push(f.path.clone());
            assert(views(to_remove@) =~= before.push(f.path@));
            assert(views(to_stage@) =~= sbefore.push(f.path@));
        }
    }
    assert(lv.take(local@.len() as int) =~= lv);
    ResolveFiles { to_current, to_store, to_remove, to_stage }
}

// ---------------------------------------------------------------------
// Where the local migration's files land
// ---------------------------------------------------------------------

/// Whether the path with components `comps` lies strictly inside `dir`.
pub open spec fn lies_in(comps: Seq<Seq<char>>, dir: Seq<Seq<char>>) -> bool {
    comps.len() > dir.len() && comps.subrange(0, dir.len() as int) == dir
}

proof fn lemma_tree_files_places(paths: Seq<Seq<char>>, dir: Seq<Seq<char>>)
    ensures
        forall|k: int|
            #![trigger tree_files(paths, dir)[k]]
            0 <= k < tree_files(paths, dir).len() ==> {
                let f = tree_files(paths, dir)[k];
                &&& paths.contains(f.path)
                &&& f.rel.len() > 0
                &&& dir + f.rel == path_components(f.path)
            },
        forall|i: int|
            0 <= i < paths.len() && lies_in(path_components(#[trigger] paths[i]), dir) ==> exists|k: int|
                0 <= k < tree_files(paths, dir).len() && (#[trigger] tree_files(paths, dir)[k]).path
                    == paths[i],
    decreases paths.len(),
{
    if paths.len() > 0 {
        let init = paths.drop_last();
        lemma_tree_files_places(init, dir);
        let rest = tree_files(init, dir);
        let tf = tree_files(paths, dir);
        let last = paths.last();
        let comps = path_components(last);
        if lies_in(comps, dir) {
            assert(comps =~= dir + comps.subrange(dir.len() as int, comps.len() as int));
            assert(tf == rest.push(tree_file(last, dir)->0));
        } else {
            assert(tf == rest);
        }
        assert forall|k: int|
            #![trigger tf[k]]
            0 <= k < tf.len() implies {
            &&& paths.contains(tf[k].path)
            &&& tf[k].rel.len() > 0
            &&& dir + tf[k].rel == path_components(tf[k].path)
        } by {
            if k < rest.len() {
                assert(tf[k] == rest[k]);
                let j = choose|j: int| 0 <= j < init.len() && init[j] == rest[k].path;
                assert(paths[j] == init[j]);
            } else {
                assert(paths[paths.len() - 1] == last);
            }
        }
        assert forall|i: int|
            0 <= i < paths.len() && lies_in(path_components(#[trigger] paths[i]), dir) implies exists|k: int|
            0 <= k < tf.len() && (#[trigger] tf[k]).path == paths[i] by {
            if i < paths.len() - 1 {
                assert(init[i] == paths[i]);
                let k = choose|k: int| 0 <= k < rest.len() && (#[trigger] rest[k]).path == init[i];
                assert(tf[k] == rest[k]);
            } else {
                assert(tf[rest.len() as int].path == paths[i]);
            }
        }
    }
}

/// Resolving puts the local migration back in `current` as it was: every
/// file listed inside the migration directory `dir` is read from the local
/// side and written to `current` followed by its whole path below `dir`
/// (subdirectories included), so that `dir` followed by the destination
/// without `current` gives back the file's own components; and no file of
/// the listing inside `dir` is left out.
pub proof fn lemma_resolve_keeps_local_layout(side: Seq<char>, listing: Seq<Seq<char>>, dir: Seq<Seq<char>>)
    ensures
        ({
            let local = tree_files(listing, dir);
            let copies = local_copies(side, local);
            &&& copies.len() == local.len()
            &&& forall|k: int|
                #![trigger copies[k]]
                0 <= k < copies.len() ==> {
                    &&& listing.contains(local[k].path)
                    &&& copies[k].0 == show_arg(side, local[k].path)
                    &&& copies[k].1.len() >= 2
                    &&& copies[k].1[0] == current_dir()
                    &&& dir + copies[k].1.drop_first() == path_components(local[k].path)
                }
            &&& forall|i: int|
                0 <= i < listing.len() && lies_in(path_components(#[trigger] listing[i]), dir)
                    ==> exists|k: int| 0 <= k < copies.len() && local[k].path == listing[i]
        }),
{
    lemma_tree_files_places(listing, dir);
    let local = tree_files(listing, dir);
    let copies = local_copies(side, local);
    assert forall|k: int|
        #![trigger copies[k]]
        0 <= k < copies.len() implies {
        &&& listing.contains(local[k].path)
        &&& copies[k].0 == show_arg(side, local[k].path)
        &&& copies[k].1.len() >= 2
        &&& copies[k].1[0] == current_dir()
        &&& dir + copies[k].1.drop_first() == path_components(local[k].path)
    } by {
        assert(local[k] == tree_files(listing, dir)[k]);
        assert(copies[k].1.drop_first() =~= local[k].rel);
    }
    assert forall|i: int|
        0 <= i < listing.len() && lies_in(path_components(#[trigger] listing[i]), dir) implies exists|k: int|
        0 <= k < copies.len() && local[k].path == listing[i] by {
        let k = choose|k: int|
            0 <= k < tree_files(listing, dir).len() && (#[trigger] tree_files(listing, dir)[k]).path
                == listing[i];
        assert(local[k].path == listing[i]);
    }
}

/// The files that resolving removes from the store are exactly the local
/// files that upstream has no file for at the same place inside the
/// migration: each removed path is such a local file's, and each such
/// local file's path is removed.
pub proof fn lemma_removed_are_local_only(local: Seq<TreeFileModel>, upstream: Seq<TreeFileModel>)
    ensures
        forall|p: Seq<char>|
            #![trigger local_only(local, upstream).contains(p)]
            local_only(local, upstream).contains(p) <==> exists|k: int|
                0 <= k < local.len() && (#[trigger] local[k]).path == p && forall|j: int|
                    0 <= j < upstream.len() ==> (#[trigger] upstream[j]).rel != local[k].rel,
        local_only(local, upstream).len() <= local.len(),
    decreases local.len(),
{
    if local.len() > 0 {
        let init = local.drop_last();
        let last = local.last();
        lemma_removed_are_local_only(init, upstream);
        let rest = local_only(init, upstream);
        let lo = local_only(local, upstream);
        assert forall|p: Seq<char>|
            #![trigger local_only(local, upstream).contains(p)]
            (exists|k: int|
                0 <= k < local.len() && (#[trigger] local[k]).path == p && forall|j: int|
                    0 <= j < upstream.len() ==> (#[trigger] upstream[j]).rel != local[k].rel) implies local_only(
            local,
            upstream,
        ).contains(p) by {
            let k = choose|k: int|
                0 <= k < local.len() && (#[trigger] local[k]).path == p && forall|j: int|
                    0 <= j < upstream.len() ==> (#[trigger] upstream[j]).rel != local[k].rel;
            if k < local.len() - 1 {
                assert(init[k] == local[k]);
                assert(rest.contains(p));
                if !has_rel(upstream, last.rel) {
                    assert(lo == rest.push(last.path));
                    assert(lo[rest.len() as int] == last.path);
                    let i = choose|i: int| 0 <= i < rest.len() && rest[i] == p;
                    assert(lo[i] == p);
                }
            } else {
                assert(!has_rel(upstream, last.rel));
                assert(lo == rest.push(last.path));
                assert(lo[rest.len() as int] == p);
            }
        }
        assert forall|p: Seq<char>|
            #![trigger local_only(local, upstream).contains(p)]
            local_only(local, upstream).contains(p) implies exists|k: int|
            0 <= k < local.len() && (#[trigger] local[k]).path == p && forall|j: int|
                0 <= j < upstream.len() ==> (#[trigger] upstream[j]).rel != local[k].rel by {
            let i = choose|i: int| 0 <= i < lo.len() && lo[i] == p;
            if i < rest.len() {
                assert(lo[i] == rest[i]);
                assert(rest.contains(p));
                let k = choose|k: int|
                    0 <= k < init.len() && (#[trigger] init[k]).path == p && forall|j: int|
                        0 <= j < upstream.len() ==> (#[trigger] upstream[j]).rel != init[k].rel;
                assert(local[k] == init[k]);
            } else {
                assert(!has_rel(upstream, last.rel));
                assert(local[local.len() - 1] == last);
            }
        }
    }
}

/// Each conflicted file in the store is assigned to the migration whose
/// directory holds it: the directory is the store prefix followed by the
/// two store components, the migration is those two components run
/// together, and the directory followed by the file's path inside it gives
/// back the file's components. Every listed path at least two components
/// below the store prefix gets an entry.
pub proof fn lemma_conflicts_in_their_migration(paths: Seq<Seq<char>>, prefix: Seq<Seq<char>>)
    ensures
        forall|k: int|
            #![trigger conflict_entries(paths, prefix)[k]]
            0 <= k < conflict_entries(paths, prefix).len() ==> {
                let e = conflict_entries(paths, prefix)[k];
                let n = prefix.len() as int;
                &&& paths.contains(e.repo_path)
                &&& e.dir.len() == n + 2
                &&& e.dir.subrange(0, n) == prefix
                &&& e.migration == e.dir[n] + e.dir[n + 1]
                &&& e.dir + e.rel == path_components(e.repo_path)
            },
        forall|i: int|
            0 <= i < paths.len() && path_components(#[trigger] paths[i]).len() >= prefix.len() + 2
                && path_components(paths[i]).subrange(0, prefix.len() as int) == prefix ==> exists|k: int|
                0 <= k < conflict_entries(paths, prefix).len() && (#[trigger] conflict_entries(
                    paths,
                    prefix,
                )[k]).repo_path == paths[i],
    decreases paths.len(),
{
    if paths.len() > 0 {
        let init = paths.drop_last();
        lemma_conflicts_in_their_migration(init, prefix);
        let rest = conflict_entries(init, prefix);
        let es = conflict_entries(paths, prefix);
        let last = paths.last();
        let comps = path_components(last);
        let n = prefix.len() as int;
        if comps.len() >= n + 2 && comps.subrange(0, n) == prefix {
            let e = conflict_entry(last, prefix)->0;
            assert(comps =~= e.dir + e.rel);
            assert(e.dir.subrange(0, n) =~= prefix);
            assert(es == rest.push(e));
        } else {
            assert(es == rest);
        }
        assert forall|k: int|
            #![trigger es[k]]
            0 <= k < es.len() implies {
            &&& paths.contains(es[k].repo_path)
            &&& es[k].dir.len() == n + 2
            &&& es[k].dir.subrange(0, n) == prefix
            &&& es[k].migration == es[k].dir[n] + es[k].dir[n + 1]
            &&& es[k].dir + es[k].rel == path_components(es[k].repo_path)
        } by {
            if k < rest.len() {
                assert(es[k] == rest[k]);
                let j = choose|j: int| 0 <= j < init.len() && init[j] == rest[k].repo_path;
                assert(paths[j] == init[j]);
            } else {
                assert(paths[paths.len() - 1] == last);
            }
        }
        assert forall|i: int|
            0 <= i < paths.len() && path_components(#[trigger] paths[i]).len() >= prefix.len() + 2
                && path_components(paths[i]).subrange(0, prefix.len() as int) == prefix implies exists|k: int|
            0 <= k < es.len() && (#[trigger] es[k]).repo_path == paths[i] by {
            if i < paths.len() - 1 {
                assert(init[i] == paths[i]);
                let k = choose|k: int| 0 <= k < rest.len() && (#[trigger] rest[k]).repo_path == init[i];
                assert(es[k] == rest[k]);
            } else {
                assert(es[rest.len() as int].repo_path == paths[i]);
            }
        }
    }
}

proof fn lemma_split_from_pieces_free_of(s: Seq<char>, sep: char, start: int, i: int)
    requires
        0 <= start <= i <= s.len(),
        forall|t: int| start <= t < i ==> s[t] != sep,
    ensures
        forall|k: int|
            0 <= k < crate::text::split_from(s, sep, start, i).len() ==> !(#[trigger] crate::text::split_from(
                s,
                sep,
                start,
                i,
            )[k]).contains(sep),
    decreases s.len() - i,
{
    let parts = crate::text::split_from(s, sep, start, i);
    if i >= s.len() {
        let piece = s.subrange(start, s.len() as int);
        assert(parts == seq![piece]);
        assert forall|k: int| 0 <= k < parts.len() implies !(#[trigger] parts[k]).contains(sep) by {
            if piece.contains(sep) {
                let t = choose|t: int| 0 <= t < piece.len() && piece[t] == sep;
                assert(piece[t] == s[start + t]);
            }
        }
    } else if s[i] == sep {
        let piece = s.subrange(start, i);
        lemma_split_from_pieces_free_of(s, sep, i + 1, i + 1);
        let rest = crate::text::split_from(s, sep, i + 1, i + 1);
        assert(parts == seq![piece] + rest);
        assert forall|k: int| 0 <= k < parts.len() implies !(#[trigger] parts[k]).contains(sep) by {
            if k == 0 {
                if piece.contains(sep) {
                    let t = choose|t: int| 0 <= t < piece.len() && piece[t] == sep;
                    assert(piece[t] == s[start + t]);
                }
            } else {
                assert(parts[k] == rest[k - 1]);
            }
        }
    } else {
        lemma_split_from_pieces_free_of(s, sep, start, i + 1);
        assert(parts == crate::text::split_from(s, sep, start, i + 1));
    }
}

proof fn lemma_non_empty_keeps(v: Seq<Seq<char>>, c: char)
    requires
        forall|k: int| 0 <= k < v.len() ==> !(#[trigger] v[k]).contains(c),
    ensures
        forall|k: int|
            0 <= k < non_empty(v).len() ==> (#[trigger] non_empty(v)[k]).len() > 0 && !non_empty(
                v,
            )[k].contains(c) && v.contains(non_empty(v)[k]),
    decreases v.len(),
{
    if v.len() > 0 {
        let init = v.drop_last();
        lemma_non_empty_keeps(init, c);
        let r = non_empty(init);
        let ne = non_empty(v);
        assert forall|k: int|
            0 <= k < ne.len() implies (#[trigger] ne[k]).len() > 0 && !ne[k].contains(c) && v.contains(
            ne[k],
        ) by {
            if k < r.len() {
                assert(ne[k] == r[k]);
                let j = choose|j: int| 0 <= j < init.len() && init[j] == r[k];
                assert(v[j] == init[j]);
            } else {
                assert(ne[k] == v.last());
                assert(v[v.len() - 1] == v.last());
            }
        }
    }
}

/// The paths read from git's `-z` output are the pieces between zero
/// characters: none is empty and none holds a zero character.
pub proof fn lemma_nul_list_paths(output: Seq<char>)
    ensures
        forall|k: int|
            0 <= k < nul_list(output).len() ==> (#[trigger] nul_list(output)[k]).len() > 0 && !nul_list(
                output,
            )[k].contains('\0'),
{
    lemma_split_from_pieces_free_of(output, '\0', 0, 0);
    lemma_non_empty_keeps(split_on(output, '\0'), '\0');
}

proof fn lemma_normal_parts_keeps(v: Seq<Seq<char>>)
    ensures
        forall|k: int|
            0 <= k < normal_parts(v).len() ==> (#[trigger] normal_parts(v)[k]).len() > 0
                && normal_parts(v)[k] != cur_component() && v.contains(normal_parts(v)[k]),
    decreases v.len(),
{
    if v.len() > 0 {
        let init = v.drop_last();
        lemma_normal_parts_keeps(init);
        let r = normal_parts(init);
        let np = normal_parts(v);
        assert forall|k: int|
            0 <= k < np.len() implies (#[trigger] np[k]).len() > 0 && np[k] != cur_component()
            && v.contains(np[k]) by {
            if k < r.len() {
                assert(np[k] == r[k]);
                let j = choose|j: int| 0 <= j < init.len() && init[j] == r[k];
                assert(v[j] == init[j]);
            } else {
                assert(np[k] == v.last());
                assert(v[v.len() - 1] == v.last());
            }
        }
    }
}

/// The components of a path: the first is `/` exactly when the path is
/// absolute; every other component is a non-empty name between slashes,
/// holding no slash, and none after the first is `.`.
pub proof fn lemma_path_components_shape(s: Seq<char>)
    ensures
        ({
            let c = path_components(s);
            &&& (s.len() > 0 && s[0] == '/') <==> (c.len() > 0 && c[0] == root_component())
            &&& forall|k: int| 0 <= k < c.len() ==> (#[trigger] c[k]).len() > 0
            &&& forall|k: int|
                0 <= k < c.len() && c[k] != root_component() ==> !(#[trigger] c[k]).contains('/')
            &&& forall|k: int| 0 < k < c.len() ==> #[trigger] c[k] != cur_component() && c[k] != root_component()
        }),
{
    let pieces = split_on(s, '/');
    lemma_split_from_pieces_free_of(s, '/', 0, 0);
    lemma_split_from_nonempty(s, '/', 0, 0);
    let rest = pieces.drop_first();
    assert forall|k: int| 0 <= k < rest.len() implies !(#[trigger] rest[k]).contains('/') by {
        assert(rest[k] == pieces[k + 1]);
    }
    lemma_normal_parts_keeps(rest);
    lemma_normal_parts_keeps(pieces);
    let c = path_components(s);
    assert(root_component()[0] == '/');
    assert(root_component().contains('/'));
    if s.len() > 0 && s[0] == '/' {
        let np = normal_parts(rest);
        assert forall|k: int| 0 < k < c.len() implies #[trigger] c[k] != cur_component() && c[k]
            != root_component() && !c[k].contains('/') by {
            assert(c[k] == np[k - 1]);
            let j = choose|j: int| 0 <= j < rest.len() && rest[j] == np[k - 1];
        }
    } else if pieces[0] == cur_component() {
        let np = normal_parts(rest);
        assert(!cur_component().contains('/')) by {
            if cur_component().contains('/') {
                let t = choose|t: int| 0 <= t < cur_component().len() && cur_component()[t] == '/';
            }
        }
        assert forall|k: int| 0 < k < c.len() implies #[trigger] c[k] != cur_component() && c[k]
            != root_component() && !c[k].contains('/') by {
            assert(c[k] == np[k - 1]);
            let j = choose|j: int| 0 <= j < rest.len() && rest[j] == np[k - 1];
        }
    } else {
        let np = normal_parts(pieces);
        assert forall|k: int| 0 <= k < c.len() implies #[trigger] c[k] != root_component() && !c[k].contains(
            '/',
        ) by {
            let j = choose|j: int| 0 <= j < pieces.len() && pieces[j] == np[k];
        }
    }
}

} // verus!
