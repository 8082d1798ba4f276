//! The name chain. Each migration's name is derived from its predecessor:
//! hash the previous name together with the previous migration's files
//! (in walk order, with relative file names and sizes mixed in). Starting
//! from a fixed seed this yields the whole chain of names.

use vstd::prelude::*;
use vstd::utf8::*;
use vstd::string::*;
use crate::hashing::{base58, base58_text, is_base58_char, sha256, sha256_digest};
use crate::paths::{lemma_ascii_name_splits, name_to_path, store_path_of, RepoPath};
use crate::text::{
    lemma_lex_antisymmetric, lemma_lex_transitive, lex_le, sort_strings, sorted, split_on, views,
};
use crate::types::RegrateError;

verus! {

broadcast use vstd::seq_lib::group_seq_properties;

// ---------------------------------------------------------------------
// Files of a migration directory and the bytes that name them
// ---------------------------------------------------------------------

/// A file of a migration directory: its path relative to the directory,
/// the size its metadata reports, and its contents.
pub struct DirFile {
    pub relative: String,
    pub size: u64,
    pub contents: Vec<u8>,
}

/// The mathematical value of a [`DirFile`].
pub struct FileModel {
    pub relative: Seq<char>,
    pub size: u64,
    pub contents: Seq<u8>,
}

impl View for DirFile {
    type V = FileModel;

    open spec fn view(&self) -> FileModel {
        FileModel { relative: self.relative@, size: self.size, contents: self.contents@ }
    }
}

/// The views of a list of files.
pub open spec fn file_views(fs: Seq<DirFile>) -> Seq<FileModel> {
    fs.map_values(|f: DirFile| f@)
}

/// `n` as `k` little-endian bytes (the low `8k` bits).
pub open spec fn le_bytes(n: nat, k: nat) -> Seq<u8>
    decreases k,
{
    if k == 0 {
        seq![]
    } else {
        seq![(n % 256) as u8] + le_bytes(n / 256, (k - 1) as nat)
    }
}

/// The bytes that one file contributes to its directory's hash: the
/// relative path, a zero byte, the size as 8 little-endian bytes, and the
/// contents.
pub open spec fn file_frame(f: FileModel) -> Seq<u8> {
    encode_utf8(f.relative) + seq![0u8] + le_bytes(f.size as nat, 8) + f.contents
}

/// The bytes of a list of files, one frame after the other.
pub open spec fn files_frame(fs: Seq<FileModel>) -> Seq<u8>
    decreases fs.len(),
{
    if fs.len() == 0 {
        seq![]
    } else {
        file_frame(fs[0]) + files_frame(fs.drop_first())
    }
}

/// The bytes hashed to name the migration that follows the one called
/// `seed` whose directory holds `fs`.
pub open spec fn dir_message(seed: Seq<char>, fs: Seq<FileModel>) -> Seq<u8> {
    encode_utf8(seed) + files_frame(fs)
}

/// The name of the migration that follows the one called `seed` whose
/// directory holds `fs`.
pub open spec fn next_name_of(seed: Seq<char>, fs: Seq<FileModel>) -> Seq<char> {
    base58_text(sha256_digest(dir_message(seed, fs)))
}

/// The fixed text that the first name is the hash of.
pub open spec fn genesis_text() -> Seq<char> {
    "#REGRATE v2 \npi: 3.141592653589793238462643383279502884197169399375105820974944592307816406286"@
}

/// The name of the first migration of every repository.
pub open spec fn first_name() -> Seq<char> {
    base58_text(sha256_digest(encode_utf8(genesis_text())))
}

/// What every name of the chain looks like: base58 text of at least two
/// characters.
pub open spec fn is_name(s: Seq<char>) -> bool {
    &&& s.len() >= 2
    &&& forall|i: int| 0 <= i < s.len() ==> is_base58_char(#[trigger] s[i])
}

pub proof fn lemma_name_is_ascii(s: Seq<char>)
    requires
        is_name(s),
    ensures
        is_ascii_chars(s),
{
    assert forall|i: int| 0 <= i < s.len() implies '\0' <= #[trigger] s[i] <= '\u{7f}' by {
        assert(is_base58_char(s[i]));
    }
}

proof fn lemma_files_frame_push(fs: Seq<FileModel>, f: FileModel)
    ensures
        files_frame(fs.push(f)) == files_frame(fs) + file_frame(f),
    decreases fs.len(),
{
    if fs.len() == 0 {
        assert(fs.push(f).drop_first() =~= Seq::<FileModel>::empty());
        assert(fs.push(f)[0] == f);
        assert(files_frame(Seq::<FileModel>::empty()) == Seq::<u8>::empty());
        assert(files_frame(fs.push(f)) == file_frame(f) + files_frame(Seq::<FileModel>::empty()));
        assert(files_frame(fs) == Seq::<u8>::empty());
        assert(files_frame(fs.push(f)) =~= files_frame(fs) + file_frame(f));
    } else {
        assert(fs.push(f).drop_first() =~= fs.drop_first().push(f));
        lemma_files_frame_push(fs.drop_first(), f);
        assert(files_frame(fs.push(f)) =~= files_frame(fs) + file_frame(f));
    }
}

/// Appends the bytes of `s` to `v`.
fn push_bytes(v: &mut Vec<u8>, s: &[u8])
    ensures
        final(v)@ == old(v)@ + s@,
{
    let ghost start = v@;
    for i in 0..s.len()
        invariant
            v@ == start + s@.take(i as int),
    {
        v.push(s[i]);
        assert(s@.take(i + 1) =~= s@.take(i as int).push(s@[i as int]));
    }
    assert(s@.take(s@.len() as int) =~= s@);
}

/// Appends `n` as 8 little-endian bytes to `v`.
fn push_le_u64(v: &mut Vec<u8>, n: u64)
    ensures
        final(v)@ == old(v)@ + le_bytes(n as nat, 8),
{
    let ghost start = v@;
    let mut rest: u64 = n;
    let mut k: usize = 0;
    while k < 8
        invariant
            k <= 8,
            start + le_bytes(n as nat, 8) == v@ + le_bytes(rest as nat, (8 - k) as nat),
        decreases 8 - k,
    {
        let b: u8 = (rest % 256) as u8;
        v.push(b);
        rest = rest / 256;
        k = k + 1;
    }
    assert(v@ + le_bytes(rest as nat, 0) =~= v@);
}

/// Appends the frame of one file to `v`.
fn push_file_frame(v: &mut Vec<u8>, f: &DirFile)
    ensures
        final(v)@ == old(v)@ + file_frame(f@),
{
    let ghost start = v@;
    push_bytes(v, f.relative.as_str().as_bytes());
    v.push(0u8);
    push_le_u64(v, f.size);
    push_bytes(v, f.contents.as_slice());
    assert(v@ =~= start + file_frame(f@));
}

/// The bytes that name the migration after `seed`, whose directory holds
/// `files`.
pub fn dir_message_bytes(seed: &str, files: &Vec<DirFile>) -> (msg: Vec<u8>)
    ensures
        msg@ == dir_message(seed@, file_views(files@)),
{
    let mut msg: Vec<u8> = Vec::new();
    push_bytes(&mut msg, seed.as_bytes());
    for i in 0..files.len()
        invariant
            msg@ == encode_utf8(seed@) + files_frame(file_views(files@).take(i as int)),
    {
        let ghost before = msg@;
        push_file_frame(&mut msg, &files[i]);
        proof {
            let fs = file_views(files@);
            assert(fs.take(i + 1) =~= fs.take(i as int).push(fs[i as int]));
            lemma_files_frame_push(fs.take(i as int), fs[i as int]);
        }
    }
    assert(file_views(files@).take(files@.len() as int) =~= file_views(files@));
    msg
}

/// The name of the migration that follows the one called `seed` whose
/// directory holds `files`: the base58 text of the SHA-256 digest of
/// [`dir_message`].
pub fn hash_dir(seed: &str, files: &Vec<DirFile>) -> (name: String)
    ensures
        name@ == next_name_of(seed@, file_views(files@)),
        is_name(name@),
        32 <= name@.len() <= 44,
{
    let msg = dir_message_bytes(seed, files);
    let digest = sha256(msg.as_slice());
    base58(digest.as_slice())
}

// ---------------------------------------------------------------------
// The store and the chain of names through it
// ---------------------------------------------------------------------

/// A directory of the store, `store/<prefix>/<rest>`, with its files in
/// walk order (each directory's entries sorted by file name).
pub struct StoreDir {
    pub prefix: String,
    pub rest: String,
    pub files: Vec<DirFile>,
}

/// The mathematical value of a [`StoreDir`].
pub struct DirModel {
    pub prefix: Seq<char>,
    pub rest: Seq<char>,
    pub files: Seq<FileModel>,
}

impl View for StoreDir {
    type V = DirModel;

    open spec fn view(&self) -> DirModel {
        DirModel { prefix: self.prefix@, rest: self.rest@, files: file_views(self.files@) }
    }
}

/// The directories found two levels below `regrate/store`.
pub struct StoreListing {
    pub dirs: Vec<StoreDir>,
}

impl View for StoreListing {
    type V = Seq<DirModel>;

    open spec fn view(&self) -> Seq<DirModel> {
        self.dirs@.map_values(|d: StoreDir| d@)
    }
}

/// A committed migration in the chain, in execution order.
pub struct Migration {
    /// zero-based position in the chain
    pub index: usize,
    pub name: String,
    pub path: RepoPath,
    /// name the next migration will receive
    pub next_name: String,
    pub next_path: RepoPath,
}

/// The mathematical value of a [`Migration`].
pub struct MigrationModel {
    pub index: int,
    pub name: Seq<char>,
    pub path: Seq<Seq<char>>,
    pub next_name: Seq<char>,
    pub next_path: Seq<Seq<char>>,
}

impl View for Migration {
    type V = MigrationModel;

    open spec fn view(&self) -> MigrationModel {
        MigrationModel {
            index: self.index as int,
            name: self.name@,
            path: self.path@,
            next_name: self.next_name@,
            next_path: self.next_path@,
        }
    }
}

/// The views of a list of migrations.
pub open spec fn migration_views(ms: Seq<Migration>) -> Seq<MigrationModel> {
    ms.map_values(|m: Migration| m@)
}

/// The migration at position `index` of the chain, called `name`, whose
/// successor is called `next_name`.
pub open spec fn migration_at(index: int, name: Seq<char>, next_name: Seq<char>) -> MigrationModel {
    MigrationModel {
        index,
        name,
        path: store_path_of(name),
        next_name,
        next_path: store_path_of(next_name),
    }
}

/// Whether `d` is the directory `store/<first two of name>/<rest of name>`.
pub open spec fn dir_matches(d: DirModel, name: Seq<char>) -> bool {
    &&& d.prefix == name.subrange(0, 2)
    &&& d.rest == name.subrange(2, name.len() as int)
}

/// The position of the first directory from `i` on that holds the
/// migration called `name`.
pub open spec fn find_dir_from(dirs: Seq<DirModel>, name: Seq<char>, i: int) -> Option<int>
    decreases dirs.len() - i,
{
    if i < 0 || i >= dirs.len() {
        None
    } else if dir_matches(dirs[i], name) {
        Some(i)
    } else {
        find_dir_from(dirs, name, i + 1)
    }
}

/// The position of the directory that holds the migration called `name`.
pub open spec fn find_dir(dirs: Seq<DirModel>, name: Seq<char>) -> Option<int> {
    find_dir_from(dirs, name, 0)
}

/// Walking the chain from the migration called `name` at position
/// `index`, taking at most `fuel` steps: the migrations met and the name
/// reserved for the next commit, or `None` when the walk would need more
/// steps.
pub open spec fn walk(dirs: Seq<DirModel>, name: Seq<char>, index: int, fuel: nat) -> Option<
    (Seq<MigrationModel>, Seq<char>),
>
    decreases fuel,
{
    match find_dir(dirs, name) {
        None => Some((seq![], name)),
        Some(j) => if fuel == 0 {
            None
        } else {
            let next = next_name_of(name, dirs[j].files);
            match walk(dirs, next, index + 1, (fuel - 1) as nat) {
                Some(r) => Some((seq![migration_at(index, name, next)] + r.0, r.1)),
                None => None,
            }
        },
    }
}

/// The chain of a store: walked from the first name, at most one step per
/// directory. A walk that needs more steps has met some directory twice,
/// and from there repeats for ever.
pub open spec fn store_chain(dirs: Seq<DirModel>) -> Option<(Seq<MigrationModel>, Seq<char>)> {
    walk(dirs, first_name(), 0, dirs.len())
}

/// Prepends migrations to the result of a walk.
pub open spec fn prepend(
    ms: Seq<MigrationModel>,
    r: Option<(Seq<MigrationModel>, Seq<char>)>,
) -> Option<(Seq<MigrationModel>, Seq<char>)> {
    match r {
        Some(r) => Some((ms + r.0, r.1)),
        None => None,
    }
}

/// Iterates committed migrations in the store, in order.
///
/// Each migration's name is derived from its predecessor: hash the previous
/// name together with the previous migration's files, with relative file
/// names and sizes mixed in. The hash follows the order of the files as
/// listed; listed in walk order (see [`lemma_next_name_order_free`]) the
/// name does not depend on the order in which the filesystem returns them.
pub struct StoreNameIterator {
    seed: String,
    index: usize,
}

impl View for StoreNameIterator {
    /// The name of the next migration to visit, and its position.
    type V = (Seq<char>, int);

    closed spec fn view(&self) -> (Seq<char>, int) {
        (self.seed@, self.index as int)
    }
}

impl StoreNameIterator {
    #[verifier::type_invariant]
    spec fn inv(self) -> bool {
        is_name(self.seed@)
    }

    pub fn new() -> (it: StoreNameIterator)
        ensures
            it@ == (first_name(), 0int),
    {
        StoreNameIterator { seed: Self::first_hash(), index: 0 }
    }

    /// The name of the first migration of every repository: the base58
    /// text of the SHA-256 digest of [`genesis_text`].
    pub fn first_hash() -> (name: String)
        ensures
            name@ == first_name(),
            is_name(name@),
            32 <= name@.len() <= 44,
    {
        let digest = sha256(
            "#REGRATE v2 \npi: 3.141592653589793238462643383279502884197169399375105820974944592307816406286".as_bytes(),
        );
        base58(digest.as_slice())
    }

    /// The name the next committed migration will receive, and where it will
    /// be stored. Only meaningful once the iterator is exhausted.
    pub fn pending(&self) -> (res: (String, RepoPath))
        ensures
            res.0@ == self@.0,
            res.1@ == store_path_of(self@.0),
            is_name(self@.0),
    {
        let seed = self.seed.as_str();
        proof {
            use_type_invariant(self);
            lemma_name_is_ascii(seed@);
            lemma_ascii_name_splits(seed);
        }
        let path = name_to_path(seed);
        (self.seed.clone(), path)
    }

    /// The position in the store of the directory of the migration the
    /// iterator stands at.
    fn locate(&self, store: &StoreListing) -> (res: Option<usize>)
        ensures
            match res {
                Some(j) => find_dir(store@, self@.0) == Some(j as int) && j < store.dirs@.len(),
                None => find_dir(store@, self@.0) is None,
            },
    {
        let seed = self.seed.as_str();
        proof {
            use_type_invariant(self);
            lemma_name_is_ascii(seed@);
            lemma_ascii_name_splits(seed);
        }
        let path = name_to_path(seed);
        let dirs = &store.dirs;
        let n = dirs.len();
        let mut j: usize = 0;
        while j < n
            invariant
                n == dirs@.len(),
                j <= n,
                path@ == store_path_of(self@.0),
                path.parts@.len() == 3,
                find_dir(store@, self@.0) == find_dir_from(store@, self@.0, j as int),
                store@ == dirs@.map_values(|d: StoreDir| d@),
            decreases n - j,
        {
            let d = &dirs[j];
            assert(store@[j as int] == d@);
            if d.prefix == path.parts[1] && d.rest == path.parts[2] {
                return Some(j);
            }
            j = j + 1;
        }
        None
    }

    /// Steps past the migration the iterator stands at, whose directory
    /// holds `files`, and returns it.
    fn advance(&mut self, files: &Vec<DirFile>) -> (m: Migration)
        requires
            old(self)@.1 < usize::MAX,
        ensures
            m@ == migration_at(old(self)@.1, old(self)@.0, next_name_of(old(self)@.0, file_views(files@))),
            final(self)@ == (next_name_of(old(self)@.0, file_views(files@)), old(self)@.1 + 1),
    {
        proof {
            use_type_invariant(&*self);
        }
        let next_name = hash_dir(self.seed.as_str(), files);
        let (name, path) = self.pending();
        let next_str = next_name.as_str();
        proof {
            lemma_name_is_ascii(next_str@);
            lemma_ascii_name_splits(next_str);
        }
        let next_path = name_to_path(next_str);
        let index = self.index;
        let m = Migration { index, name, path, next_name: next_name.clone(), next_path };
        self.seed = next_name;
        self.index = index + 1;
        m
    }

    /// The migration the iterator stands at, if the store holds its
    /// directory; the iterator then moves to its successor.
    pub fn next(&mut self, store: &StoreListing) -> (res: Option<Migration>)
        requires
            old(self)@.1 < usize::MAX,
        ensures
            match find_dir(store@, old(self)@.0) {
                None => res is None && final(self)@ == old(self)@,
                Some(j) => {
                    let next = next_name_of(old(self)@.0, store@[j].files);
                    &&& res matches Some(m) && m@ == migration_at(old(self)@.1, old(self)@.0, next)
                    &&& final(self)@ == (next, old(self)@.1 + 1)
                },
            },
    {
        match self.locate(store) {
            None => None,
            Some(j) => {
                assert(store@[j as int] == store.dirs@[j as int]@);
                Some(self.advance(&store.dirs[j].files))
            },
        }
    }
}

/// Walk the whole chain of committed migrations, returning them in order
/// along with the name and path reserved for the next commit. Fails with
/// `ChainCycle` exactly when the walk would never end.
pub fn chain(store: &StoreListing) -> (res: Result<(Vec<Migration>, String, RepoPath), RegrateError>)
    ensures
        match res {
            Ok((ms, pending, pending_path)) => {
                &&& store_chain(store@) == Some((migration_views(ms@), pending@))
                &&& pending_path@ == store_path_of(pending@)
            },
            Err(e) => store_chain(store@) is None && e is ChainCycle,
        },
{
    let mut iter = StoreNameIterator::new();
    let mut migrations: Vec<Migration> = Vec::new();
    let n = store.dirs.len();
    let mut k: usize = 0;
    loop
        invariant
            n == store@.len(),
            k <= n,
            iter@.1 == k,
            migrations@.len() == k,
            store_chain(store@) == prepend(
                migration_views(migrations@),
                walk(store@, iter@.0, k as int, (n - k) as nat),
            ),
        decreases n - k,
    {
        let found = iter.locate(store);
        match found {
            None => {
                let (pending, pending_path) = iter.pending();
                assert(migration_views(migrations@) + seq![] =~= migration_views(migrations@));
                return Ok((migrations, pending, pending_path));
            },
            Some(j) => {
                if k == n {
                    return Err(RegrateError::ChainCycle);
                }
                assert(store@[j as int] == store.dirs@[j as int]@);
                let ghost before = migration_views(migrations@);
                let m = iter.advance(&store.dirs[j].files);
                migrations.push(m);
                k = k + 1;
                assert(migration_views(migrations@) =~= before.push(m@));
                proof {
                    let r = walk(store@, iter@.0, k as int, (n - k) as nat);
                    assert(prepend(before, prepend(seq![m@], r)) == prepend(before.push(m@), r)) by {
                        if let Some((rm, rp)) = r {
                            assert(before + (seq![m@] + rm) =~= before.push(m@) + rm);
                        }
                    }
                }
            },
        }
    }
}

/// What every step of a finished walk satisfies: positions count up from
/// `index`, the first migration is the one the walk started at, each
/// migration's directory is in the store and its successor's name is the
/// hash of its name and files, each migration is named as its
/// predecessor's successor, and the name left over for the next commit
/// has no directory in the store.
pub open spec fn walk_is_linked(
    dirs: Seq<DirModel>,
    name: Seq<char>,
    index: int,
    ms: Seq<MigrationModel>,
    pending: Seq<char>,
) -> bool {
    &&& forall|k: int| 0 <= k < ms.len() ==> (#[trigger] ms[k]).index == index + k
    &&& forall|k: int|
        #![trigger ms[k]]
        0 <= k < ms.len() ==> {
            &&& find_dir(dirs, ms[k].name) is Some
            &&& ms[k].next_name == next_name_of(ms[k].name, dirs[find_dir(dirs, ms[k].name)->0].files)
            &&& ms[k].path == store_path_of(ms[k].name)
            &&& ms[k].next_path == store_path_of(ms[k].next_name)
        }
    &&& ms.len() > 0 ==> ms[0].name == name
    &&& forall|k: int| 0 <= k < ms.len() - 1 ==> #[trigger] ms[k + 1].name == ms[k].next_name
    &&& pending == if ms.len() == 0 { name } else { ms.last().next_name }
    &&& find_dir(dirs, pending) is None
}

proof fn lemma_find_dir_from_in_range(dirs: Seq<DirModel>, name: Seq<char>, i: int)
    ensures
        find_dir_from(dirs, name, i) matches Some(j) ==> 0 <= j < dirs.len() && dir_matches(
            dirs[j],
            name,
        ),
    decreases dirs.len() - i,
{
    if 0 <= i < dirs.len() && !dir_matches(dirs[i], name) {
        lemma_find_dir_from_in_range(dirs, name, i + 1);
    }
}

/// A finished walk is linked (see [`walk_is_linked`]) and takes no more
/// steps than its fuel.
pub proof fn lemma_walk_links(dirs: Seq<DirModel>, name: Seq<char>, index: int, fuel: nat)
    requires
        walk(dirs, name, index, fuel) is Some,
    ensures
        ({
            let (ms, pending) = walk(dirs, name, index, fuel)->0;
            &&& walk_is_linked(dirs, name, index, ms, pending)
            &&& ms.len() <= fuel
        }),
    decreases fuel,
{
    lemma_find_dir_from_in_range(dirs, name, 0);
    match find_dir(dirs, name) {
        None => {},
        Some(j) => {
            let next = next_name_of(name, dirs[j].files);
            lemma_walk_links(dirs, next, index + 1, (fuel - 1) as nat);
            let (rs, p) = walk(dirs, next, index + 1, (fuel - 1) as nat)->0;
            let ms = seq![migration_at(index, name, next)] + rs;
            assert(walk(dirs, name, index, fuel)->0 == (ms, p));
            assert forall|k: int| 0 <= k < ms.len() - 1 implies #[trigger] ms[k + 1].name
                == ms[k].next_name by {
                if k > 0 {
                    assert(ms[k + 1] == rs[k]);
                    assert(ms[k] == rs[k - 1]);
                    assert(rs[(k - 1) + 1].name == rs[k - 1].next_name);
                } else {
                    assert(ms[1] == rs[0]);
                    assert(rs[0].name == next);
                }
            }
            assert forall|k: int| 0 <= k < ms.len() implies (#[trigger] ms[k]).index == index + k by {
                if k > 0 {
                    assert(ms[k] == rs[k - 1]);
                }
            }
            assert forall|k: int|
                #![trigger ms[k]]
                0 <= k < ms.len() implies {
                &&& find_dir(dirs, ms[k].name) is Some
                &&& ms[k].next_name == next_name_of(
                    ms[k].name,
                    dirs[find_dir(dirs, ms[k].name)->0].files,
                )
                &&& ms[k].path == store_path_of(ms[k].name)
                &&& ms[k].next_path == store_path_of(ms[k].next_name)
            } by {
                if k > 0 {
                    assert(ms[k] == rs[k - 1]);
                }
            }
            if rs.len() > 0 {
                assert(ms.last() == rs.last());
            }
        },
    }
}

/// The name chain of a store, when it ends, is linked: it starts at the
/// first name with position 0, each migration is named by hashing its
/// predecessor's name and files, and the name reserved for the next commit
/// is the last migration's successor (the first name in an empty store)
/// and has no directory in the store.
pub proof fn lemma_chain_links(dirs: Seq<DirModel>)
    requires
        store_chain(dirs) is Some,
    ensures
        ({
            let (ms, pending) = store_chain(dirs)->0;
            walk_is_linked(dirs, first_name(), 0, ms, pending)
        }),
{
    lemma_walk_links(dirs, first_name(), 0, dirs.len());
}

// ---------------------------------------------------------------------
// Store directories that the chain does not reach
// ---------------------------------------------------------------------

/// The name a store directory stands for: its two components run together.
pub open spec fn dir_name(d: DirModel) -> Seq<char> {
    d.prefix + d.rest
}

/// Whether some migration of `ms` is called `name`.
pub open spec fn reached(ms: Seq<MigrationModel>, name: Seq<char>) -> bool {
    exists|i: int| 0 <= i < ms.len() && (#[trigger] ms[i]).name == name
}

/// The names of the store directories that no migration of `ms` is called,
/// in store order.
pub open spec fn unreached_names(dirs: Seq<DirModel>, ms: Seq<MigrationModel>) -> Seq<Seq<char>>
    decreases dirs.len(),
{
    if dirs.len() == 0 {
        seq![]
    } else {
        let rest = unreached_names(dirs.drop_last(), ms);
        let name = dir_name(dirs.last());
        if reached(ms, name) {
            rest
        } else {
            rest.push(name)
        }
    }
}

/// Whether some migration of `ms` is called `name`.
fn is_reached(ms: &[Migration], name: &String) -> (r: bool)
    ensures
        r == reached(migration_views(ms@), name@),
{
    let mut i: usize = 0;
    while i < ms.len()
        invariant
            i <= ms@.len(),
            forall|k: int| 0 <= k < i ==> (#[trigger] migration_views(ms@)[k]).name != name@,
        decreases ms.len() - i,
    {
        if ms[i].name == *name {
            assert(migration_views(ms@)[i as int].name == name@);
            return true;
        }
        i = i + 1;
    }
    false
}

/// Store directories that are not reachable by the name chain, by name, in
/// sorted order. A non-empty result means a committed migration was edited
/// (breaking every name after it) or a merge left behind a migration that
/// needs to be re-committed.
pub fn orphans(store: &StoreListing, reachable: &[Migration]) -> (found: Vec<String>)
    ensures
        sorted(views(found@)),
        views(found@).to_multiset() == unreached_names(store@, migration_views(reachable@)).to_multiset(),
{
    let ghost ms = migration_views(reachable@);
    let mut found: Vec<String> = Vec::new();
    let dirs = &store.dirs;
    for i in 0..dirs.len()
        invariant
            store@ == dirs@.map_values(|d: StoreDir| d@),
            ms == migration_views(reachable@),
            views(found@) == unreached_names(store@.take(i as int), ms),
    {
        let d = &dirs[i];
        let name = d.prefix.clone().concat(d.rest.as_str());
        let known = is_reached(reachable, &name);
        let ghost before = views(found@);
        proof {
            let t = store@.take(i + 1);
            assert(t.drop_last() =~= store@.take(i as int));
            assert(t.last() == d@);
        }
        if !known {
            found.push(name);
            assert(views(found@) =~= before.push(name@));
        }
    }
    assert(store@.take(dirs@.len() as int) =~= store@);
    sort_strings(found)
}

// ---------------------------------------------------------------------
// What a commit does to the chain
// ---------------------------------------------------------------------

proof fn lemma_find_dir_from_push(dirs: Seq<DirModel>, d: DirModel, name: Seq<char>, i: int)
    requires
        0 <= i <= dirs.len(),
    ensures
        find_dir_from(dirs.push(d), name, i) == match find_dir_from(dirs, name, i) {
            Some(j) => Some(j),
            None => if dir_matches(d, name) {
                Some(dirs.len() as int)
            } else {
                None
            },
        },
    decreases dirs.len() - i,
{
    let e = dirs.push(d);
    if i < dirs.len() {
        assert(e[i] == dirs[i]);
        if !dir_matches(dirs[i], name) {
            lemma_find_dir_from_push(dirs, d, name, i + 1);
        }
    } else {
        assert(e[i] == d);
        assert(find_dir_from(e, name, i + 1) is None);
    }
}

proof fn lemma_find_dir_push(dirs: Seq<DirModel>, d: DirModel, name: Seq<char>)
    ensures
        find_dir(dirs.push(d), name) == match find_dir(dirs, name) {
            Some(j) => Some(j),
            None => if dir_matches(d, name) {
                Some(dirs.len() as int)
            } else {
                None
            },
        },
{
    lemma_find_dir_from_push(dirs, d, name, 0);
}

/// The name a finished walk leaves for the next commit.
pub open spec fn walk_pending(dirs: Seq<DirModel>, name: Seq<char>, index: int, fuel: nat) -> Seq<char> {
    match walk(dirs, name, index, fuel) {
        Some((_, pending)) => pending,
        None => name,
    }
}

/// A walk that ends at `pending` goes one step further in a store that
/// gains the directory of `pending`, and then ends.
proof fn lemma_walk_push(
    dirs: Seq<DirModel>,
    d: DirModel,
    name: Seq<char>,
    index: int,
    fuel: nat,
)
    requires
        walk(dirs, name, index, fuel) is Some,
        dir_matches(d, walk_pending(dirs, name, index, fuel)),
        find_dir(dirs.push(d), next_name_of(walk_pending(dirs, name, index, fuel), d.files)) is None,
    ensures
        ({
            let (ms, pending) = walk(dirs, name, index, fuel)->0;
            let next = next_name_of(pending, d.files);
            walk(dirs.push(d), name, index, fuel + 1) == Some(
                (ms.push(migration_at(index + ms.len(), pending, next)), next),
            )
        }),
    decreases fuel,
{
    let e = dirs.push(d);
    let (ms, pending) = walk(dirs, name, index, fuel)->0;
    let next = next_name_of(pending, d.files);
    lemma_find_dir_push(dirs, d, name);
    lemma_find_dir_from_in_range(dirs, name, 0);
    match find_dir(dirs, name) {
        None => {
            assert(pending == name);
            assert(e[dirs.len() as int] == d);
            assert(walk(e, next, index + 1, fuel) == Some((Seq::<MigrationModel>::empty(), next)));
            assert(ms.push(migration_at(index, pending, next)) =~= seq![migration_at(index, pending, next)]
                + Seq::<MigrationModel>::empty());
        },
        Some(j) => {
            assert(e[j] == dirs[j]);
            let next0 = next_name_of(name, dirs[j].files);
            let (rs, p) = walk(dirs, next0, index + 1, (fuel - 1) as nat)->0;
            lemma_walk_push(dirs, d, next0, index + 1, (fuel - 1) as nat);
            assert(ms =~= seq![migration_at(index, name, next0)] + rs);
            assert(ms.push(migration_at(index + ms.len(), pending, next)) =~= seq![
                migration_at(index, name, next0),
            ] + rs.push(migration_at(index + 1 + rs.len(), pending, next)));
        },
    }
}

proof fn lemma_all_reached(dirs: Seq<DirModel>, ms: Seq<MigrationModel>, j: int)
    requires
        unreached_names(dirs, ms).len() == 0,
        0 <= j < dirs.len(),
    ensures
        reached(ms, dir_name(dirs[j])),
    decreases dirs.len(),
{
    if !reached(ms, dir_name(dirs.last())) {
        assert(unreached_names(dirs, ms).len() > 0);
    }
    if j < dirs.len() - 1 {
        if unreached_names(dirs.drop_last(), ms).len() > 0 {
            assert(unreached_names(dirs, ms).len() > 0);
        }
        assert(dirs.drop_last()[j] == dirs[j]);
        lemma_all_reached(dirs.drop_last(), ms, j);
    }
}

proof fn lemma_none_unreached(dirs: Seq<DirModel>, ms: Seq<MigrationModel>)
    requires
        forall|j: int| 0 <= j < dirs.len() ==> reached(ms, dir_name(#[trigger] dirs[j])),
    ensures
        unreached_names(dirs, ms).len() == 0,
    decreases dirs.len(),
{
    if dirs.len() > 0 {
        assert(reached(ms, dir_name(dirs[dirs.len() - 1])));
        assert forall|j: int| 0 <= j < dirs.drop_last().len() implies reached(
            ms,
            dir_name(#[trigger] dirs.drop_last()[j]),
        ) by {
            assert(dirs.drop_last()[j] == dirs[j]);
        }
        lemma_none_unreached(dirs.drop_last(), ms);
    }
}

/// Committing extends the chain by exactly the committed migration: when
/// the chain reaches every migration of the store and a directory is added
/// under the name the chain reserves, the new chain is the old one with
/// that migration appended, and it reserves the hash of that migration's
/// name and files for the next commit. The one exception is a hash that
/// comes back to a name the chain already holds, which would make the
/// chain loop.
pub proof fn lemma_commit_extends_chain(dirs: Seq<DirModel>, d: DirModel)
    requires
        store_chain(dirs) is Some,
        ({
            let (ms, pending) = store_chain(dirs)->0;
            let next = next_name_of(pending, d.files);
            &&& unreached_names(dirs, ms).len() == 0
            &&& dir_matches(d, pending)
            &&& pending.len() >= 2
            &&& next.len() >= 2
            &&& next != pending
            &&& forall|k: int| 0 <= k < ms.len() ==> (#[trigger] ms[k]).name != next
        }),
    ensures
        ({
            let (ms, pending) = store_chain(dirs)->0;
            let next = next_name_of(pending, d.files);
            let ms2 = ms.push(migration_at(ms.len() as int, pending, next));
            &&& store_chain(dirs.push(d)) == Some((ms2, next))
            &&& unreached_names(dirs.push(d), ms2).len() == 0
        }),
{
    let (ms, pending) = store_chain(dirs)->0;
    let next = next_name_of(pending, d.files);
    lemma_find_dir_from_in_range(dirs, next, 0);
    if let Some(j) = find_dir(dirs, next) {
        assert(dir_name(dirs[j]) =~= next);
        lemma_all_reached(dirs, ms, j);
        let k = choose|k: int| 0 <= k < ms.len() && (#[trigger] ms[k]).name == dir_name(dirs[j]);
        assert(ms[k].name != next);
    }
    if dir_matches(d, next) {
        assert(next =~= next.subrange(0, 2) + next.subrange(2, next.len() as int));
        assert(pending =~= pending.subrange(0, 2) + pending.subrange(2, pending.len() as int));
    }
    lemma_find_dir_push(dirs, d, next);
    lemma_walk_push(dirs, d, first_name(), 0, dirs.len());
    assert(dirs.push(d).len() == dirs.len() + 1);
    let ms2 = ms.push(migration_at(ms.len() as int, pending, next));
    let e = dirs.push(d);
    assert forall|j: int| 0 <= j < e.len() implies reached(ms2, dir_name(#[trigger] e[j])) by {
        if j < dirs.len() {
            assert(e[j] == dirs[j]);
            lemma_all_reached(dirs, ms, j);
            let k = choose|k: int| 0 <= k < ms.len() && (#[trigger] ms[k]).name == dir_name(dirs[j]);
            assert(ms2[k] == ms[k]);
        } else {
            assert(e[j] == d);
            assert(dir_name(d) =~= pending);
            assert(ms2[ms.len() as int].name == pending);
        }
    }
    lemma_none_unreached(e, ms2);
}

// ---------------------------------------------------------------------
// What editing a committed migration does to the chain
// ---------------------------------------------------------------------

proof fn lemma_linked_shift(
    dirs: Seq<DirModel>,
    ms: Seq<MigrationModel>,
    pending: Seq<char>,
    a: int,
    b: int,
    t: int,
)
    requires
        walk_is_linked(dirs, first_name(), 0, ms, pending),
        0 <= a < b,
        0 <= t,
        b + t < ms.len(),
        ms[a].name == ms[b].name,
    ensures
        ms[a + t].name == ms[b + t].name,
    decreases t,
{
    if t > 0 {
        lemma_linked_shift(dirs, ms, pending, a, b, t - 1);
        let x = ms[a + t - 1];
        let y = ms[b + t - 1];
        assert(x.next_name == next_name_of(x.name, dirs[find_dir(dirs, x.name)->0].files));
        assert(y.next_name == next_name_of(y.name, dirs[find_dir(dirs, y.name)->0].files));
        assert(ms[(a + t - 1) + 1].name == x.next_name);
        assert(ms[(b + t - 1) + 1].name == y.next_name);
    }
}

/// The names of a finished chain are all different, and differ from the
/// name it leaves for the next commit: a name met twice would make the
/// chain repeat for ever.
pub proof fn lemma_chain_names_distinct(dirs: Seq<DirModel>)
    requires
        store_chain(dirs) is Some,
    ensures
        ({
            let (ms, pending) = store_chain(dirs)->0;
            &&& forall|a: int, b: int|
                0 <= a < b < ms.len() ==> (#[trigger] ms[a]).name != (#[trigger] ms[b]).name
            &&& forall|a: int| 0 <= a < ms.len() ==> (#[trigger] ms[a]).name != pending
        }),
{
    lemma_chain_links(dirs);
    let (ms, pending) = store_chain(dirs)->0;
    let n = ms.len() as int;
    assert forall|a: int, b: int| 0 <= a < b < ms.len() implies (#[trigger] ms[a]).name != (
    #[trigger] ms[b]).name by {
        if ms[a].name == ms[b].name {
            let t = n - 1 - b;
            lemma_linked_shift(dirs, ms, pending, a, b, t);
            let x = ms[a + t];
            let y = ms[n - 1];
            assert(x.next_name == next_name_of(x.name, dirs[find_dir(dirs, x.name)->0].files));
            assert(y.next_name == next_name_of(y.name, dirs[find_dir(dirs, y.name)->0].files));
            assert(ms[(a + t) + 1].name == x.next_name);
            assert(pending == y.next_name);
            assert(find_dir(dirs, ms[a + t + 1].name) is Some);
        }
    }
    assert forall|a: int| 0 <= a < ms.len() implies (#[trigger] ms[a]).name != pending by {
        assert(find_dir(dirs, ms[a].name) is Some);
    }
}

/// The store with the files of directory `j` replaced.
pub open spec fn with_files(dirs: Seq<DirModel>, j: int, files: Seq<FileModel>) -> Seq<DirModel> {
    dirs.update(j, DirModel { prefix: dirs[j].prefix, rest: dirs[j].rest, files })
}

proof fn lemma_find_dir_from_edit(
    dirs: Seq<DirModel>,
    j: int,
    files: Seq<FileModel>,
    name: Seq<char>,
    i: int,
)
    requires
        0 <= j < dirs.len(),
    ensures
        find_dir_from(with_files(dirs, j, files), name, i) == find_dir_from(dirs, name, i),
    decreases dirs.len() - i,
{
    let e = with_files(dirs, j, files);
    if 0 <= i < dirs.len() {
        assert(dir_matches(e[i], name) == dir_matches(dirs[i], name));
        lemma_find_dir_from_edit(dirs, j, files, name, i + 1);
    }
}

proof fn lemma_walk_edit(
    dirs: Seq<DirModel>,
    ms: Seq<MigrationModel>,
    pending: Seq<char>,
    j: int,
    k: int,
    files: Seq<FileModel>,
    i: int,
)
    requires
        walk_is_linked(dirs, first_name(), 0, ms, pending),
        ms.len() <= dirs.len(),
        forall|a: int, b: int|
            0 <= a < b < ms.len() ==> (#[trigger] ms[a]).name != (#[trigger] ms[b]).name,
        forall|a: int| 0 <= a < ms.len() ==> (#[trigger] ms[a]).name.len() >= 2,
        0 <= i <= k < ms.len(),
        find_dir(dirs, ms[k].name) == Some(j),
        find_dir(with_files(dirs, j, files), next_name_of(ms[k].name, files)) is None,
    ensures
        ({
            let next = next_name_of(ms[k].name, files);
            walk(with_files(dirs, j, files), ms[i].name, i, (dirs.len() - i) as nat) == Some(
                (ms.subrange(i, k) + seq![migration_at(k, ms[k].name, next)], next),
            )
        }),
    decreases k - i,
{
    let e = with_files(dirs, j, files);
    let next = next_name_of(ms[k].name, files);
    lemma_find_dir_from_in_range(dirs, ms[k].name, 0);
    lemma_find_dir_from_edit(dirs, j, files, ms[i].name, 0);
    lemma_find_dir_from_in_range(dirs, ms[i].name, 0);
    assert(ms[i].index == i);
    if i == k {
        assert(e[j].files == files);
        assert(walk(e, next, i + 1, (dirs.len() - i - 1) as nat) == Some((Seq::<MigrationModel>::empty(), next)));
        assert(ms.subrange(i, k) + seq![migration_at(k, ms[k].name, next)] =~= seq![
            migration_at(i, ms[i].name, next),
        ] + Seq::<MigrationModel>::empty());
    } else {
        let ji = find_dir(dirs, ms[i].name)->0;
        if ji == j {
            lemma_find_dir_from_in_range(dirs, ms[k].name, 0);
            assert(ms[i].name =~= dirs[j].prefix + dirs[j].rest);
            assert(ms[k].name =~= dirs[j].prefix + dirs[j].rest);
        }
        assert(e[ji] == dirs[ji]);
        assert(ms[i].next_name == next_name_of(ms[i].name, dirs[ji].files));
        assert(ms[i + 1].name == ms[i].next_name);
        lemma_walk_edit(dirs, ms, pending, j, k, files, i + 1);
        assert(ms.subrange(i, k) + seq![migration_at(k, ms[k].name, next)] =~= seq![ms[i]] + (ms.subrange(
            i + 1,
            k,
        ) + seq![migration_at(k, ms[k].name, next)]));
        assert(ms[i] == migration_at(i, ms[i].name, ms[i].next_name));
    }
}

/// Editing a committed migration invalidates the name of every migration
/// after it: when the chain reaches every migration of the store and the
/// files of migration `k` change so that their hash names no directory of
/// the store, the chain now ends at migration `k`, whose successor is that
/// hash, and the store directories it no longer reaches are exactly those
/// of the migrations after `k` (none when `k` was the last).
pub proof fn lemma_edit_breaks_chain(dirs: Seq<DirModel>, k: int, files: Seq<FileModel>)
    requires
        store_chain(dirs) is Some,
        ({
            let (ms, pending) = store_chain(dirs)->0;
            &&& unreached_names(dirs, ms).len() == 0
            &&& 0 <= k < ms.len()
            &&& forall|a: int| 0 <= a < ms.len() ==> (#[trigger] ms[a]).name.len() >= 2
            &&& find_dir(
                with_files(dirs, find_dir(dirs, ms[k].name)->0, files),
                next_name_of(ms[k].name, files),
            ) is None
        }),
    ensures
        ({
            let (ms, pending) = store_chain(dirs)->0;
            let j = find_dir(dirs, ms[k].name)->0;
            let edited = with_files(dirs, j, files);
            let next = next_name_of(ms[k].name, files);
            let ms2 = ms.take(k) + seq![migration_at(k, ms[k].name, next)];
            &&& store_chain(edited) == Some((ms2, next))
            &&& forall|e: int|
                0 <= e < edited.len() ==> (reached(ms2, dir_name(#[trigger] edited[e])) <==> !exists|m: int|
                    k < m < ms.len() && (#[trigger] ms[m]).name == dir_name(edited[e]))
            &&& (unreached_names(edited, ms2).len() == 0 <==> k == ms.len() - 1)
        }),
{
    lemma_walk_links(dirs, first_name(), 0, dirs.len());
    lemma_chain_names_distinct(dirs);
    let (ms, pending) = store_chain(dirs)->0;
    let j = find_dir(dirs, ms[k].name)->0;
    lemma_find_dir_from_in_range(dirs, ms[k].name, 0);
    let edited = with_files(dirs, j, files);
    let next = next_name_of(ms[k].name, files);
    let ms2 = ms.take(k) + seq![migration_at(k, ms[k].name, next)];
    if ms.len() > 0 {
        assert(ms[0].name == first_name());
    }
    lemma_walk_edit(dirs, ms, pending, j, k, files, 0);
    assert(ms.subrange(0, k) =~= ms.take(k));
    assert(edited.len() == dirs.len());
    assert forall|e: int| 0 <= e < edited.len() implies (reached(ms2, dir_name(#[trigger] edited[e])) <==> !exists|m: int|
        k < m < ms.len() && (#[trigger] ms[m]).name == dir_name(edited[e])) by {
        let dn = dir_name(edited[e]);
        assert(dn == dir_name(dirs[e]));
        lemma_all_reached(dirs, ms, e);
        let m0 = choose|m: int| 0 <= m < ms.len() && (#[trigger] ms[m]).name == dn;
        if m0 <= k {
            if m0 < k {
                assert(ms2[m0] == ms[m0]);
            }
            assert(ms2[m0].name == dn);
            assert forall|m: int| k < m < ms.len() implies (#[trigger] ms[m]).name != dn by {
                assert(ms[m0].name != ms[m].name);
            }
        } else {
            assert forall|i: int| 0 <= i < ms2.len() implies (#[trigger] ms2[i]).name != dn by {
                if i < k {
                    assert(ms2[i] == ms[i]);
                }
                assert(ms[i].name != ms[m0].name);
            }
        }
    }
    if k < ms.len() - 1 {
        let jn = find_dir(dirs, ms[k + 1].name)->0;
        lemma_find_dir_from_in_range(dirs, ms[k + 1].name, 0);
        assert(dir_name(dirs[jn]) =~= ms[k + 1].name);
        assert(edited[jn].prefix == dirs[jn].prefix && edited[jn].rest == dirs[jn].rest);
        assert(dir_name(edited[jn]) == dir_name(dirs[jn]));
        assert(!reached(ms2, dir_name(edited[jn])));
        if unreached_names(edited, ms2).len() == 0 {
            lemma_all_reached(edited, ms2, jn);
        }
    } else {
        assert forall|e: int| 0 <= e < edited.len() implies reached(ms2, dir_name(#[trigger] edited[e])) by {
            assert(!exists|m: int| k < m < ms.len() && (#[trigger] ms[m]).name == dir_name(edited[e]));
        }
        lemma_none_unreached(edited, ms2);
    }
}

// ---------------------------------------------------------------------
// What the framing of a directory's files keeps apart
// ---------------------------------------------------------------------

/// A file as a file system can hold it: its path has no zero byte, and its
/// contents are as long as its reported size.
pub open spec fn file_is_well_formed(f: FileModel) -> bool {
    &&& !encode_utf8(f.relative).contains(0u8)
    &&& f.contents.len() == f.size
}

/// `256` to the power `k`.
pub open spec fn pow256(k: nat) -> nat
    decreases k,
{
    if k == 0 {
        1
    } else {
        256 * pow256((k - 1) as nat)
    }
}

proof fn lemma_le_bytes_len(n: nat, k: nat)
    ensures
        le_bytes(n, k).len() == k,
    decreases k,
{
    if k > 0 {
        lemma_le_bytes_len(n / 256, (k - 1) as nat);
    }
}

proof fn lemma_le_bytes_injective(a: nat, b: nat, k: nat)
    requires
        a < pow256(k),
        b < pow256(k),
        le_bytes(a, k) == le_bytes(b, k),
    ensures
        a == b,
    decreases k,
{
    if k > 0 {
        let p = pow256((k - 1) as nat);
        assert(le_bytes(a, k)[0] == le_bytes(b, k)[0]);
        assert(le_bytes(a, k)[0] == (a % 256) as u8);
        assert(le_bytes(b, k)[0] == (b % 256) as u8);
        assert(((a % 256) as u8) as int == a % 256);
        assert(((b % 256) as u8) as int == b % 256);
        assert(a % 256 == b % 256);
        assert(le_bytes(a / 256, (k - 1) as nat) =~= le_bytes(a, k).drop_first());
        assert(le_bytes(b / 256, (k - 1) as nat) =~= le_bytes(b, k).drop_first());
        assert(a / 256 < p && b / 256 < p) by (nonlinear_arith)
            requires
                a < 256 * p,
                b < 256 * p,
        ;
        lemma_le_bytes_injective(a / 256, b / 256, (k - 1) as nat);
        assert(a == 256 * (a / 256) + a % 256) by (nonlinear_arith);
        assert(b == 256 * (b / 256) + b % 256) by (nonlinear_arith);
    } else {
        assert(pow256(0) == 1);
    }
}

proof fn lemma_files_frame_len(fs: Seq<FileModel>)
    ensures
        fs.len() > 0 ==> files_frame(fs).len() > 0,
{
    if fs.len() > 0 {
        assert(files_frame(fs) == file_frame(fs[0]) + files_frame(fs.drop_first()));
        assert(file_frame(fs[0]).len() > 0);
    }
}

/// Hashing the path and size with the contents makes renames and content
/// boundary shifts detectable: for well-formed files, different lists of
/// files never give the same bytes to hash.
pub proof fn lemma_files_frame_injective(a: Seq<FileModel>, b: Seq<FileModel>)
    requires
        forall|i: int| 0 <= i < a.len() ==> file_is_well_formed(#[trigger] a[i]),
        forall|i: int| 0 <= i < b.len() ==> file_is_well_formed(#[trigger] b[i]),
        files_frame(a) == files_frame(b),
    ensures
        a == b,
    decreases a.len(),
{
    lemma_files_frame_len(a);
    lemma_files_frame_len(b);
    if a.len() == 0 || b.len() == 0 {
        assert(a =~= b);
    } else {
        let fa = a[0];
        let fb = b[0];
        assert(file_is_well_formed(fa));
        assert(file_is_well_formed(fb));
        let ra = encode_utf8(fa.relative);
        let rb = encode_utf8(fb.relative);
        let la = le_bytes(fa.size as nat, 8);
        let lb = le_bytes(fb.size as nat, 8);
        lemma_le_bytes_len(fa.size as nat, 8);
        lemma_le_bytes_len(fb.size as nat, 8);
        let ta = files_frame(a.drop_first());
        let tb = files_frame(b.drop_first());
        let f = files_frame(a);
        assert(f =~= ra + seq![0u8] + la + fa.contents + ta);
        assert(f =~= rb + seq![0u8] + lb + fb.contents + tb);
        let l = ra.len() as int;
        assert(f[l] == 0u8);
        if rb.len() > l {
            assert(f[l] == rb[l]);
            assert(rb.contains(0u8));
        }
        if rb.len() < l {
            assert(f[rb.len() as int] == ra[rb.len() as int]);
            assert(ra.contains(0u8));
        }
        assert(ra =~= f.subrange(0, l));
        assert(rb =~= f.subrange(0, l));
        assert(la =~= f.subrange(l + 1, l + 9));
        assert(lb =~= f.subrange(l + 1, l + 9));
        assert(pow256(8) == 0x1_0000_0000_0000_0000) by {
            reveal_with_fuel(pow256, 9);
        }
        lemma_le_bytes_injective(fa.size as nat, fb.size as nat, 8);
        let n = fa.size as int;
        assert(fa.contents =~= f.subrange(l + 9, l + 9 + n));
        assert(fb.contents =~= f.subrange(l + 9, l + 9 + n));
        assert(ta =~= f.subrange(l + 9 + n, f.len() as int));
        assert(tb =~= f.subrange(l + 9 + n, f.len() as int));
        encode_utf8_decode_utf8(fa.relative);
        encode_utf8_decode_utf8(fb.relative);
        assert(fa.relative == fb.relative);
        assert(fa == fb);
        assert forall|i: int| 0 <= i < a.drop_first().len() implies file_is_well_formed(
            #[trigger] a.drop_first()[i],
        ) by {
            assert(a.drop_first()[i] == a[i + 1]);
        }
        assert forall|i: int| 0 <= i < b.drop_first().len() implies file_is_well_formed(
            #[trigger] b.drop_first()[i],
        ) by {
            assert(b.drop_first()[i] == b[i + 1]);
        }
        lemma_files_frame_injective(a.drop_first(), b.drop_first());
        assert(a =~= seq![fa] + a.drop_first());
        assert(b =~= seq![fb] + b.drop_first());
    }
}

/// Two migrations that follow the same name get the same bytes to hash
/// only when their directories hold the same files: a rename, an edit or a
/// shift of content between files changes the message.
pub proof fn lemma_dir_message_injective(seed: Seq<char>, a: Seq<FileModel>, b: Seq<FileModel>)
    requires
        forall|i: int| 0 <= i < a.len() ==> file_is_well_formed(#[trigger] a[i]),
        forall|i: int| 0 <= i < b.len() ==> file_is_well_formed(#[trigger] b[i]),
        dir_message(seed, a) == dir_message(seed, b),
    ensures
        a == b,
{
    let p = encode_utf8(seed);
    assert(files_frame(a) =~= dir_message(seed, a).subrange(p.len() as int, dir_message(seed, a).len() as int));
    assert(files_frame(b) =~= dir_message(seed, b).subrange(p.len() as int, dir_message(seed, b).len() as int));
    lemma_files_frame_injective(a, b);
}

// ---------------------------------------------------------------------
// The order in which a directory's files are hashed
// ---------------------------------------------------------------------

/// `a` comes strictly before `b` in `String`'s order.
pub open spec fn str_lt(a: Seq<char>, b: Seq<char>) -> bool {
    lex_le(a, b) && a != b
}

/// Component-wise order of paths given as their components: the order in
/// which a walk that visits each directory's entries sorted by name meets
/// them.
pub open spec fn parts_lt(a: Seq<Seq<char>>, b: Seq<Seq<char>>) -> bool
    decreases a.len(),
{
    if b.len() == 0 {
        false
    } else if a.len() == 0 {
        true
    } else if a[0] != b[0] {
        str_lt(a[0], b[0])
    } else {
        parts_lt(a.drop_first(), b.drop_first())
    }
}

/// The components of a file's relative path.
pub open spec fn file_key(f: FileModel) -> Seq<Seq<char>> {
    split_on(f.relative, '/')
}

/// Files listed in walk order: strictly increasing by path, component by
/// component.
pub open spec fn walk_ordered(fs: Seq<FileModel>) -> bool {
    forall|i: int, j: int|
        0 <= i < j < fs.len() ==> parts_lt(#[trigger] file_key(fs[i]), #[trigger] file_key(fs[j]))
}

proof fn lemma_parts_lt_irreflexive(a: Seq<Seq<char>>)
    ensures
        !parts_lt(a, a),
    decreases a.len(),
{
    if a.len() > 0 {
        lemma_parts_lt_irreflexive(a.drop_first());
    }
}

proof fn lemma_parts_lt_transitive(a: Seq<Seq<char>>, b: Seq<Seq<char>>, c: Seq<Seq<char>>)
    requires
        parts_lt(a, b),
        parts_lt(b, c),
    ensures
        parts_lt(a, c),
    decreases a.len(),
{
    if a.len() > 0 && b.len() > 0 && c.len() > 0 {
        if a[0] == b[0] && b[0] == c[0] {
            lemma_parts_lt_transitive(a.drop_first(), b.drop_first(), c.drop_first());
        } else if a[0] != b[0] && b[0] != c[0] {
            lemma_lex_transitive(a[0], b[0], c[0]);
            if a[0] == c[0] {
                lemma_lex_antisymmetric(a[0], b[0]);
            }
        }
    }
}

proof fn lemma_walk_ordered_tail(fs: Seq<FileModel>)
    requires
        walk_ordered(fs),
        fs.len() > 0,
    ensures
        walk_ordered(fs.drop_first()),
{
    assert forall|x: int, y: int| 0 <= x < y < fs.drop_first().len() implies parts_lt(
        #[trigger] file_key(fs.drop_first()[x]),
        #[trigger] file_key(fs.drop_first()[y]),
    ) by {
        assert(fs.drop_first()[x] == fs[x + 1]);
        assert(fs.drop_first()[y] == fs[y + 1]);
        assert(parts_lt(file_key(fs[x + 1]), file_key(fs[y + 1])));
    }
}

/// The walk order of a set of files is unique: two listings of the same
/// files, both in walk order, are the same listing.
pub proof fn lemma_walk_order_unique(a: Seq<FileModel>, b: Seq<FileModel>)
    requires
        walk_ordered(a),
        walk_ordered(b),
        a.to_multiset() == b.to_multiset(),
    ensures
        a == b,
    decreases a.len(),
{
    vstd::seq_lib::to_multiset_len(a);
    vstd::seq_lib::to_multiset_len(b);
    if a.len() == 0 {
        assert(a =~= b);
    } else {
        vstd::seq_lib::to_multiset_contains(a, a[0]);
        vstd::seq_lib::to_multiset_contains(b, a[0]);
        vstd::seq_lib::to_multiset_contains(a, b[0]);
        vstd::seq_lib::to_multiset_contains(b, b[0]);
        assert(a.contains(a[0]));
        assert(b.contains(b[0]));
        let j = choose|j: int| 0 <= j < b.len() && b[j] == a[0];
        let i = choose|i: int| 0 <= i < a.len() && a[i] == b[0];
        if i > 0 && j > 0 {
            assert(parts_lt(file_key(b[0]), file_key(b[j])));
            assert(parts_lt(file_key(a[0]), file_key(a[i])));
            lemma_parts_lt_transitive(file_key(a[0]), file_key(b[0]), file_key(a[0]));
            lemma_parts_lt_irreflexive(file_key(a[0]));
        }
        assert(a[0] == b[0]);
        vstd::seq_lib::to_multiset_remove(a, 0);
        vstd::seq_lib::to_multiset_remove(b, 0);
        assert(a.remove(0) =~= a.drop_first());
        assert(b.remove(0) =~= b.drop_first());
        lemma_walk_ordered_tail(a);
        lemma_walk_ordered_tail(b);
        lemma_walk_order_unique(a.drop_first(), b.drop_first());
        assert(a =~= seq![a[0]] + a.drop_first());
        assert(b =~= seq![b[0]] + b.drop_first());
    }
}

/// A migration's successor name does not depend on the order in which the
/// filesystem lists its files: hashed in walk order (each directory's
/// entries sorted by file name, as `walkdir`'s `sort_by_file_name` visits
/// them), any two listings of the same files give the same name.
pub proof fn lemma_next_name_order_free(seed: Seq<char>, a: Seq<FileModel>, b: Seq<FileModel>)
    requires
        walk_ordered(a),
        walk_ordered(b),
        a.to_multiset() == b.to_multiset(),
    ensures
        next_name_of(seed, a) == next_name_of(seed, b),
{
    lemma_walk_order_unique(a, b);
}

} // verus!
