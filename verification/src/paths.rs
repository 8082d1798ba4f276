//! Locations inside the `regrate` directory, kept as lists of path
//! components so that the library never touches the file system.

use vstd::prelude::*;
use vstd::utf8::*;
use vstd::string::*;
use crate::text::{chars_of, views};
use crate::types::RegrateError;

verus! {

broadcast use vstd::seq_lib::group_seq_properties;

/// A location under the `regrate` directory: the components that are
/// joined, in order, onto that directory.
pub struct RepoPath {
    pub parts: Vec<String>,
}

impl View for RepoPath {
    type V = Seq<Seq<char>>;

    open spec fn view(&self) -> Seq<Seq<char>> {
        views(self.parts@)
    }
}

/// The `store` directory component.
pub open spec fn store_dir() -> Seq<char> {
    seq!['s', 't', 'o', 'r', 'e']
}

/// Where the migration called `name` lives: `store/<first two>/<rest>`,
/// for a name whose first two characters are single bytes.
pub open spec fn store_path_of(name: Seq<char>) -> Seq<Seq<char>> {
    seq![store_dir(), name.subrange(0, 2), name.subrange(2, name.len() as int)]
}

/// `<regrate>/<sub_path>`, whether regrate is set up or not.
pub fn location(sub: &str) -> (p: RepoPath)
    ensures
        p@ == seq![sub@],
{
    let mut parts: Vec<String> = Vec::new();
    parts.push(sub.to_owned());
    let p = RepoPath { parts };
    assert(p@ =~= seq![sub@]);
    p
}

/// Verify regrate is set up (the `regrate` directory exists), then pass
/// `<regrate>/<sub_path>`; the sub-path itself is not checked.
pub fn regrate_path(sub_path: &str, regrate_exists: bool) -> (res: Result<RepoPath, RegrateError>)
    ensures
        regrate_exists <==> res is Ok,
        res matches Ok(p) ==> p@ == seq![sub_path@],
        res matches Err(e) ==> e is NotInitialized,
{
    if !regrate_exists {
        return Err(RegrateError::NotInitialized);
    }
    Ok(location(sub_path))
}

/// An ASCII byte string is valid UTF-8 with a character boundary at every
/// index.
pub proof fn lemma_ascii_char_boundary(bytes: Seq<u8>, k: int)
    requires
        valid_utf8(bytes),
        forall|i: int| 0 <= i < bytes.len() ==> #[trigger] bytes[i] < 128,
        0 <= k <= bytes.len(),
    ensures
        is_char_boundary(bytes, k),
    decreases k,
{
    if k > 0 {
        let rest = pop_first_scalar(bytes);
        assert(length_of_first_scalar(bytes) == 1);
        assert(rest =~= bytes.subrange(1, bytes.len() as int));
        assert(valid_utf8(rest));
        lemma_ascii_char_boundary(rest, k - 1);
    }
}

/// A name made of ASCII characters, at least two of them, can be split
/// after its second byte.
pub proof fn lemma_ascii_name_splits(name: &str)
    requires
        is_ascii_chars(name@),
        name@.len() >= 2,
    ensures
        is_char_boundary(name.spec_bytes(), 2),
{
    is_ascii_chars_encode_utf8(name@);
    encode_utf8_valid_utf8(name@);
    let bytes = name.spec_bytes();
    assert forall|i: int| 0 <= i < bytes.len() implies #[trigger] bytes[i] < 128 by {
        assert(name@[i] as u8 == bytes[i]);
    }
    lemma_ascii_char_boundary(bytes, 2);
}

/// The UTF-8 bytes of a part of an ASCII string are that part of its bytes.
proof fn lemma_ascii_subrange_bytes(s: Seq<char>, i: int, j: int)
    requires
        is_ascii_chars(s),
        0 <= i <= j <= s.len(),
    ensures
        encode_utf8(s.subrange(i, j)) == encode_utf8(s).subrange(i, j),
{
    let t = s.subrange(i, j);
    is_ascii_chars_encode_utf8(s);
    assert(is_ascii_chars(t));
    is_ascii_chars_encode_utf8(t);
    assert(encode_utf8(t) =~= encode_utf8(s).subrange(i, j));
}

/// Store path for a migration name: the first two bytes become a
/// subdirectory, the rest is the directory name within it. The name must
/// have a character boundary after its second byte.
pub fn name_to_path(name: &str) -> (p: RepoPath)
    requires
        is_char_boundary(name.spec_bytes(), 2),
    ensures
        p@.len() == 3,
        p@[0] == store_dir(),
        encode_utf8(p@[1]) == name.spec_bytes().subrange(0, 2),
        encode_utf8(p@[2]) == name.spec_bytes().subrange(2, name.spec_bytes().len() as int),
        is_ascii_chars(name@) ==> p@ == store_path_of(name@),
{
    let (first, rest) = name.split_at(2);
    let mut parts: Vec<String> = Vec::new();
    parts.push("store".to_owned());
    parts.push(first.to_owned());
    parts.push(rest.to_owned());
    let p = RepoPath { parts };
    proof {
        reveal_strlit("store");
        assert(p@[0] =~= store_dir());
        if is_ascii_chars(name@) {
            let bytes = name.spec_bytes();
            encode_utf8_valid_utf8(name@);
            assert(bytes.len() >= 2);
            is_ascii_chars_encode_utf8(name@);
            assert(bytes.len() == name@.len());
            lemma_ascii_subrange_bytes(name@, 0, 2);
            lemma_ascii_subrange_bytes(name@, 2, name@.len() as int);
            encode_utf8_decode_utf8(p@[1]);
            encode_utf8_decode_utf8(name@.subrange(0, 2));
            encode_utf8_decode_utf8(p@[2]);
            encode_utf8_decode_utf8(name@.subrange(2, name@.len() as int));
        }
        assert(p@.len() == 3);
        assert(is_ascii_chars(name@) ==> p@ =~= store_path_of(name@));
    }
    p
}

/// `base` with `part` pushed onto it as `PathBuf::push` does on Unix: an
/// absolute part replaces the path, and a separator goes between unless the
/// path is empty or already ends in one.
pub open spec fn join_part(base: Seq<char>, part: Seq<char>) -> Seq<char> {
    if part.len() > 0 && part[0] == '/' {
        part
    } else if base.len() == 0 || base.last() == '/' {
        base + part
    } else {
        base + seq!['/'] + part
    }
}

/// `base` with each of `parts` pushed onto it in turn.
pub open spec fn join_parts(base: Seq<char>, parts: Seq<Seq<char>>) -> Seq<char>
    decreases parts.len(),
{
    if parts.len() == 0 {
        base
    } else {
        join_parts(join_part(base, parts[0]), parts.drop_first())
    }
}

/// A copy of a path.
pub fn copy_path(p: &RepoPath) -> (q: RepoPath)
    ensures
        q@ == p@,
{
    let mut parts: Vec<String> = Vec::new();
    for i in 0..p.parts.len()
        invariant
            views(parts@) == views(p.parts@).take(i as int),
    {
        parts.push(p.parts[i].clone());
        assert(views(p.parts@).take(i + 1) =~= views(p.parts@).take(i as int).push(p.parts@[i as int]@));
        assert(views(parts@) =~= views(p.parts@).take(i + 1));
    }
    assert(views(p.parts@).take(p.parts@.len() as int) =~= views(p.parts@));
    RepoPath { parts }
}

/// `path` with one more component.
pub fn child_path(path: &RepoPath, name: &str) -> (q: RepoPath)
    ensures
        q@ == path@.push(name@),
{
    let mut q = copy_path(path);
    q.parts.push(name.to_owned());
    assert(q@ =~= path@.push(name@));
    q
}

/// The text of `path` under the `regrate` directory whose text is `root`.
pub fn path_text(root: &str, path: &RepoPath) -> (text: String)
    ensures
        text@ == join_parts(root@, path@),
{
    let mut text = root.to_owned();
    let root_chars = chars_of(root);
    let mut empty = root_chars.len() == 0;
    let mut ends_sep = !empty && root_chars[root_chars.len() - 1] == '/';
    let parts = &path.parts;
    for i in 0..parts.len()
        invariant
            path@ == views(parts@),
            empty == (text@.len() == 0),
            ends_sep == (text@.len() > 0 && text@.last() == '/'),
            join_parts(root@, path@) == join_parts(text@, path@.skip(i as int)),
    {
        let part = parts[i].as_str();
        let pc = chars_of(part);
        let ghost before = text@;
        assert(path@.skip(i as int)[0] == part@);
        assert(path@.skip(i as int).drop_first() =~= path@.skip(i + 1));
        if pc.len() > 0 && pc[0] == '/' {
            text = part.to_owned();
        } else {
            if !empty && !ends_sep {
                text.append("/");
                proof {
                    reveal_strlit("/");
                }
            }
            text.append(part);
        }
        assert(text@ == join_part(before, part@));
        if pc.len() > 0 {
            empty = false;
            ends_sep = pc[pc.len() - 1] == '/';
            assert(text@.last() == part@.last());
        } else {
            if !empty && !ends_sep {
                empty = false;
                ends_sep = true;
            }
        }
    }
    assert(path@.skip(parts@.len() as int) =~= Seq::<Seq<char>>::empty());
    text
}

} // verus!
