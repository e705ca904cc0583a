//! Paths as text: finding the repository root among the ancestors of a
//! directory, and moving between absolute paths and paths relative to it.

use crate::error::Error;
use crate::strmap::{str_eq, texts};
use vstd::prelude::*;
use vstd::string::StringExecFns;

verus! {

/// The separator between the root and a path below it: none where the
/// root ends in one already.
pub open spec fn gap(root: Seq<char>) -> int {
    if root.len() > 0 && root.last() == '/' {
        0
    } else {
        1
    }
}

/// The path of `file` relative to the directory `root`, where `file` is
/// the root or lies below it. The root itself has the empty path.
pub open spec fn relative_path(file: Seq<char>, root: Seq<char>) -> Option<Seq<char>> {
    let n = root.len() as int;
    if file == root {
        Some(Seq::empty())
    } else if file.len() >= n + gap(root) && file.subrange(0, n) == root && (gap(root) == 1
        ==> file[n] == '/') {
        Some(file.subrange(n + gap(root), file.len() as int))
    } else {
        None
    }
}

/// The first directory that holds the repository marker.
pub open spec fn first_marked(dirs: Seq<Seq<char>>, marked: Seq<bool>, from: int) -> Option<
    Seq<char>,
>
    decreases dirs.len() - from,
{
    if from < 0 || from >= dirs.len() || from >= marked.len() {
        None
    } else if marked[from] {
        Some(dirs[from])
    } else {
        first_marked(dirs, marked, from + 1)
    }
}

/// The directories above a relative path, the deepest first: one for each
/// separator among the first `n` characters.
pub open spec fn parents_upto(path: Seq<char>, n: int) -> Seq<Seq<char>>
    decreases n,
{
    if n <= 0 || n > path.len() {
        Seq::empty()
    } else if path[n - 1] == '/' {
        seq![path.subrange(0, n - 1)] + parents_upto(path, n - 1)
    } else {
        parents_upto(path, n - 1)
    }
}

/// Where the object with this hash is filed: in a directory named by the
/// first two characters of the hash, under the remaining 38 as its name.
pub open spec fn shard_of(hash: Seq<char>) -> Option<(Seq<char>, Seq<char>)> {
    if hash.len() == 40 {
        Some((hash.subrange(0, 2), hash.subrange(2, 40)))
    } else {
        None
    }
}

/// Whether a file name marks a hidden file.
pub open spec fn hidden(name: Seq<char>) -> bool {
    name.len() > 0 && name[0] == '.'
}

/// Whether a file name marks a hidden file: it starts with a dot.
pub fn is_hidden(name: &str) -> (r: bool)
    ensures
        r == hidden(name@),
{
    name.unicode_len() > 0 && name.get_char(0) == '.'
}

/// The directory and the file name under which the object with this hash
/// is filed. A hash that has not 40 characters is refused.
pub fn shard(hash: &str) -> (r: Result<(String, String), Error>)
    ensures
        match r {
            Ok((dir, file)) => shard_of(hash@) == Some((dir@, file@)),
            Err(e) => shard_of(hash@) is None && e == Error::CorruptObject,
        },
{
    if hash.unicode_len() != 40 {
        return Err(Error::CorruptObject);
    }
    Ok((hash.substring_char(0, 2).to_owned(), hash.substring_char(2, 40).to_owned()))
}

/// Finds the root of the repository among a directory and its ancestors,
/// given nearest first, each with whether it holds the repository marker.
pub fn find_repo_root(dirs: &Vec<String>, marked: &Vec<bool>) -> (r: Result<String, Error>)
    ensures
        match r {
            Ok(root) => first_marked(texts(dirs@), marked@, 0) == Some(root@),
            Err(e) => first_marked(texts(dirs@), marked@, 0) is None && e == Error::NotARepository,
        },
{
    let mut i: usize = 0;
    while i < dirs.len() && i < marked.len()
        invariant
            i <= dirs@.len(),
            first_marked(texts(dirs@), marked@, 0) == first_marked(texts(dirs@), marked@, i as int),
        decreases dirs@.len() - i,
    {
        if marked[i] {
            assert(texts(dirs@)[i as int] == dirs@[i as int]@);
            return Ok(dirs[i].clone());
        }
        i = i + 1;
    }
    Err(Error::NotARepository)
}

/// The path of `file` relative to the repository root `root`. Both are
/// absolute paths; a file that is neither the root nor below it is
/// refused.
pub fn find_working_tree_dir(file: &str, root: &str) -> (r: Result<String, Error>)
    ensures
        match r {
            Ok(path) => relative_path(file@, root@) == Some(path@),
            Err(e) => relative_path(file@, root@) is None && e == Error::NotARepository,
        },
{
    let n = root.unicode_len();
    let m = file.unicode_len();
    if m < n {
        return Err(Error::NotARepository);
    }
    if !str_eq(file.substring_char(0, n), root) {
        proof {
            if file@ == root@ {
                assert(file@.subrange(0, n as int) =~= file@);
            }
        }
        return Err(Error::NotARepository);
    }
    if m == n {
        proof {
            assert(file@.subrange(0, n as int) =~= file@);
        }
        return Ok(String::new());
    }
    let sep: usize = if n > 0 && root.get_char(n - 1) == '/' {
        0
    } else {
        1
    };
    if sep == 1 && file.get_char(n) != '/' {
        return Err(Error::NotARepository);
    }
    Ok(file.substring_char(n + sep, m).to_owned())
}

/// The absolute path of the working file `fp` below the root `root`.
pub fn abs_path_working_file(root: &str, fp: &str) -> (r: String)
    ensures
        r@ == root@ + (if gap(root@) == 1 {
            "/"@
        } else {
            Seq::empty()
        }) + fp@,
{
    let mut out = root.to_owned();
    let n = root.unicode_len();
    if !(n > 0 && root.get_char(n - 1) == '/') {
        out.append("/");
    } else {
        proof {
            assert(root@ + Seq::<char>::empty() =~= root@);
        }
    }
    out.append(fp);
    out
}

/// The directories above a relative path, the deepest first. They are
/// the ones that may be left empty when the file is deleted.
pub fn parent_dirs(path: &str) -> (r: Vec<String>)
    ensures
        texts(r@) == parents_upto(path@, path@.len() as int),
{
    let mut out: Vec<String> = Vec::new();
    let len = path.unicode_len();
    let mut n: usize = len;
    proof {
        assert(texts(out@) + parents_upto(path@, len as int) =~= parents_upto(path@, len as int));
    }
    while n > 0
        invariant
            n <= len,
            len == path@.len(),
            texts(out@) + parents_upto(path@, n as int) == parents_upto(path@, len as int),
        decreases n,
    {
        let ghost shown = out@;
        if path.get_char(n - 1) == '/' {
            let dir = path.substring_char(0, n - 1).to_owned();
            out.push(dir);
            proof {
                assert(texts(shown.push(dir)) =~= texts(shown).push(dir@));
                assert(texts(shown).push(dir@) + parents_upto(path@, n - 1) =~= texts(shown) + (
                seq![dir@] + parents_upto(path@, n - 1)));
            }
        }
        n = n - 1;
    }
    proof {
        assert(texts(out@) + parents_upto(path@, 0) =~= texts(out@));
    }
    out
}

/// The position behind the last separator among the first `n` characters
/// of a path: where its file name starts.
pub open spec fn name_start(path: Seq<char>, n: int) -> int
    decreases n,
{
    if n <= 0 || n > path.len() {
        0
    } else if path[n - 1] == '/' {
        n
    } else {
        name_start(path, n - 1)
    }
}

/// The file name of a path: what follows its last separator.
pub open spec fn file_name_of(path: Seq<char>) -> Seq<char> {
    path.subrange(name_start(path, path.len() as int), path.len() as int)
}

/// The predicate that accepts the paths whose file name is not hidden.
pub open spec fn visible_pred() -> spec_fn(Seq<char>) -> bool {
    |path: Seq<char>| !hidden(file_name_of(path))
}

/// The file name of a path.
pub fn file_name(path: &str) -> (r: String)
    ensures
        r@ == file_name_of(path@),
{
    let len = path.unicode_len();
    let mut n: usize = len;
    while n > 0 && path.get_char(n - 1) != '/'
        invariant
            n <= len,
            len == path@.len(),
            name_start(path@, len as int) == name_start(path@, n as int),
        decreases n,
    {
        n = n - 1;
    }
    path.substring_char(n, len).to_owned()
}

/// The working files among the files that a walk of the working tree
/// found: those whose file name is not hidden.
pub fn working_files(found: &Vec<String>) -> (r: Vec<String>)
    ensures
        texts(r@) == crate::strmap::select(texts(found@), visible_pred()),
{
    let mut out: Vec<String> = Vec::new();
    let ghost keep = visible_pred();
    let mut i: usize = 0;
    proof {
        assert(texts(found@).subrange(0, 0) =~= Seq::<Seq<char>>::empty());
        assert(texts(out@) =~= Seq::<Seq<char>>::empty());
    }
    while i < found.len()
        invariant
            keep == visible_pred(),
            i <= found@.len(),
            texts(out@) == crate::strmap::select(texts(found@).subrange(0, i as int), keep),
        decreases found@.len() - i,
    {
        let path = &found[i];
        let ghost shown = out@;
        proof {
            assert(texts(found@)[i as int] == path@);
            crate::strmap::lemma_select_step(texts(found@), i as int, keep);
        }
        let name = file_name(path.as_str());
        if !is_hidden(name.as_str()) {
            out.push(path.clone());
            proof {
                assert(texts(shown.push(*path)) =~= texts(shown).push(path@));
            }
        }
        i = i + 1;
    }
    proof {
        assert(texts(found@).subrange(0, i as int) =~= texts(found@));
    }
    out
}

/// The directory that marks the root of a repository and holds its state.
pub fn marker() -> (r: String)
    ensures
        r@ == ".gitlet"@,
{
    String::from_str(".gitlet")
}

/// The directory of the compressed contents.
pub fn blobs_dir() -> (r: String)
    ensures
        r@ == ".gitlet/blobs"@,
{
    String::from_str(".gitlet/blobs")
}

/// The directory of the commit records.
pub fn commits_dir() -> (r: String)
    ensures
        r@ == ".gitlet/commits"@,
{
    String::from_str(".gitlet/commits")
}

/// The directory of the branch tips.
pub fn refs_dir() -> (r: String)
    ensures
        r@ == ".gitlet/refs"@,
{
    String::from_str(".gitlet/refs")
}

/// The directories of a repository, relative to its root, each after
/// the one that holds it.
pub fn layout_dirs() -> (r: Vec<String>)
    ensures
        texts(r@) == seq![".gitlet"@, ".gitlet/blobs"@, ".gitlet/commits"@, ".gitlet/refs"@],
{
    let mut out: Vec<String> = Vec::new();
    out.push(marker());
    out.push(blobs_dir());
    out.push(commits_dir());
    out.push(refs_dir());
    proof {
        assert(texts(out@) =~= seq![
            ".gitlet"@,
            ".gitlet/blobs"@,
            ".gitlet/commits"@,
            ".gitlet/refs"@,
        ]);
    }
    out
}

/// The file that names the branch that is checked out.
pub fn head_file() -> (r: String)
    ensures
        r@ == ".gitlet/HEAD"@,
{
    String::from_str(".gitlet/HEAD")
}

/// The file that holds the staging area.
pub fn index_file() -> (r: String)
    ensures
        r@ == ".gitlet/index"@,
{
    String::from_str(".gitlet/index")
}

/// The file that holds the tip of the branch `name`.
pub fn ref_file(name: &str) -> (r: String)
    ensures
        r@ == ".gitlet/refs/"@ + name@,
{
    let mut out = String::from_str(".gitlet/refs/");
    out.append(name);
    out
}

/// Where an object is filed below the directory `dir`.
pub open spec fn object_path(dir: Seq<char>, hash: Seq<char>) -> Option<Seq<char>> {
    match shard_of(hash) {
        Some((shard_dir, file)) => Some(dir + "/"@ + shard_dir + "/"@ + file),
        None => None,
    }
}

fn object_file(dir: &str, hash: &str) -> (r: Result<String, Error>)
    ensures
        match r {
            Ok(path) => object_path(dir@, hash@) == Some(path@),
            Err(e) => object_path(dir@, hash@) is None && e == Error::CorruptObject,
        },
{
    match shard(hash) {
        Ok((shard_dir, file)) => {
            let mut out = dir.to_owned();
            out.append("/");
            out.append(shard_dir.as_str());
            out.append("/");
            out.append(file.as_str());
            Ok(out)
        },
        Err(e) => Err(e),
    }
}

/// The file that holds the compressed content with this digest. A digest
/// that has not 40 characters is refused.
pub fn blob_file(hash: &str) -> (r: Result<String, Error>)
    ensures
        match r {
            Ok(path) => object_path(".gitlet/blobs"@, hash@) == Some(path@),
            Err(e) => object_path(".gitlet/blobs"@, hash@) is None && e == Error::CorruptObject,
        },
{
    object_file(".gitlet/blobs", hash)
}

/// The file that holds the record of the commit with this hash. A hash
/// that has not 40 characters is refused.
pub fn commit_file(hash: &str) -> (r: Result<String, Error>)
    ensures
        match r {
            Ok(path) => object_path(".gitlet/commits"@, hash@) == Some(path@),
            Err(e) => object_path(".gitlet/commits"@, hash@) is None && e == Error::CorruptObject,
        },
{
    object_file(".gitlet/commits", hash)
}

/// What to do with a directory above a file that was deleted.
#[derive(Debug, PartialEq, Eq)]
pub enum Prune {
    /// The directory is deleted, and the one above it is looked at next.
    Remove,
    /// The directory stays, and so do all above it.
    Stop,
}

/// Decides about a directory above a file that was deleted: it goes if
/// the deletion left it empty, unless the operation was started in it.
/// The directories are looked at from the deepest up, as `parent_dirs`
/// lists them, which never reaches the root.
pub fn prune_step(empty: bool, started_here: bool) -> (r: Prune)
    ensures
        r is Remove <==> empty && !started_here,
{
    if empty && !started_here {
        Prune::Remove
    } else {
        Prune::Stop
    }
}

} // verus!
