//! '/'-separated paths as the catalog uses them: joining, the root a path lies
//! under and the path relative to it, replacing a file extension, and the
//! default download location of an asset category.
use vstd::prelude::*;
use vstd::string::*;
use crate::text::str_eq;

verus! {

/// `base` with `rel` appended as `PathBuf::join` does: an absolute `rel`
/// replaces `base`, and one separator goes between them.
pub open spec fn join(base: Seq<char>, rel: Seq<char>) -> Seq<char> {
    if rel.len() > 0 && rel[0] == '/' {
        rel
    } else if base.len() == 0 {
        rel
    } else if base.last() == '/' {
        base + rel
    } else {
        base + seq!['/'] + rel
    }
}

pub open spec fn starts_with(s: Seq<char>, prefix: Seq<char>) -> bool {
    prefix.len() <= s.len() && s.subrange(0, prefix.len() as int) == prefix
}

/// The length of `s[..k]` without its trailing separators.
pub open spec fn trim_to(s: Seq<char>, k: int) -> int
    decreases k,
{
    if 0 < k <= s.len() && s[k - 1] == '/' {
        trim_to(s, k - 1)
    } else {
        k
    }
}

/// The first position at or after `i` that does not hold a separator.
pub open spec fn skip_from(s: Seq<char>, i: int) -> int
    decreases s.len() - i,
{
    if 0 <= i < s.len() && s[i] == '/' {
        skip_from(s, i + 1)
    } else {
        i
    }
}

/// `root` without its trailing separators.
pub open spec fn root_part(root: Seq<char>) -> Seq<char> {
    root.subrange(0, trim_to(root, root.len() as int))
}

/// `path` lies under `root`, comparing whole components (repeated and
/// trailing separators do not count): an empty root holds every relative
/// path, a root made of separators every absolute one, and any other root
/// the paths that equal it or go on from it past a separator.
pub open spec fn under(path: Seq<char>, root: Seq<char>) -> bool {
    let r = root_part(root);
    if root.len() == 0 {
        path.len() == 0 || path[0] != '/'
    } else if r.len() == 0 {
        path.len() > 0 && path[0] == '/'
    } else {
        starts_with(path, r) && (path.len() == r.len() || path[r.len() as int] == '/')
    }
}

/// The part of `path` after `root` and the separators that follow it, for a
/// `path` under `root`.
pub open spec fn relative(path: Seq<char>, root: Seq<char>) -> Seq<char> {
    if root.len() == 0 {
        path
    } else {
        path.subrange(skip_from(path, root_part(root).len() as int), path.len() as int)
    }
}

/// Trimming separators never lengthens a prefix.
proof fn lemma_trim_to(s: Seq<char>, k: int)
    requires
        0 <= k <= s.len(),
    ensures
        0 <= trim_to(s, k) <= k,
    decreases k,
{
    if 0 < k && s[k - 1] == '/' {
        lemma_trim_to(s, k - 1);
    }
}

/// Skipping separators stops inside `s`, on a character that is none.
proof fn lemma_skip_from(s: Seq<char>, i: int)
    requires
        0 <= i <= s.len(),
    ensures
        i <= skip_from(s, i) <= s.len(),
        skip_from(s, i) < s.len() ==> s[skip_from(s, i)] != '/',
    decreases s.len() - i,
{
    if i < s.len() && s[i] == '/' {
        lemma_skip_from(s, i + 1);
    }
}

/// The position of the last `c` in `s`, or -1.
pub open spec fn last_index_of(s: Seq<char>, c: char) -> int
    decreases s.len(),
{
    if s.len() == 0 {
        -1
    } else if s.last() == c {
        s.len() - 1
    } else {
        last_index_of(s.drop_last(), c)
    }
}

/// Where the file name of `p` starts.
pub open spec fn name_start(p: Seq<char>) -> int {
    last_index_of(p, '/') + 1
}

/// `p` with the extension of its file name replaced by `ext` (removed where
/// `ext` is empty). A file name's extension follows its last '.', unless that
/// '.' opens the name. A path with no file name (empty, ending in '/', or in
/// "..") stays as it is.
pub open spec fn with_extension(p: Seq<char>, ext: Seq<char>) -> Seq<char> {
    let start = name_start(p);
    let name = p.subrange(start, p.len() as int);
    let dot = last_index_of(name, '.');
    let stem = if dot > 0 { name.subrange(0, dot) } else { name };
    if name.len() == 0 || name == seq!['.', '.'] {
        p
    } else {
        p.subrange(0, start) + stem + if ext.len() > 0 { seq!['.'] + ext } else { seq![] }
    }
}

#[derive(Debug)]
pub enum PathError {
    /// The path does not lie under the root.
    NotUnder,
}

fn first_char_is(s: &str, c: char) -> (r: bool)
    ensures
        r == (s@.len() > 0 && s@[0] == c),
{
    s.unicode_len() > 0 && s.get_char(0) == c
}

fn last_char_is(s: &str, c: char) -> (r: bool)
    ensures
        r == (s@.len() > 0 && s@.last() == c),
{
    let n = s.unicode_len();
    n > 0 && s.get_char(n - 1) == c
}

/// Joins `rel` onto `base`.
pub fn join_path(base: &str, rel: &str) -> (r: String)
    ensures
        r@ == join(base@, rel@),
{
    if first_char_is(rel, '/') || base.unicode_len() == 0 {
        rel.to_owned()
    } else if last_char_is(base, '/') {
        let mut s = base.to_owned();
        s.append(rel);
        s
    } else {
        let mut s = base.to_owned();
        s.append("/");
        proof {
            reveal_strlit("/");
        }
        s.append(rel);
        s
    }
}

fn starts_with_exec(s: &str, prefix: &str) -> (r: bool)
    ensures
        r == starts_with(s@, prefix@),
{
    let n = prefix.unicode_len();
    if n > s.unicode_len() {
        return false;
    }
    str_eq(s.substring_char(0, n), prefix)
}

/// The length of `root` without its trailing separators.
fn root_len(root: &str) -> (r: usize)
    ensures
        r as int == trim_to(root@, root@.len() as int),
        r <= root@.len(),
{
    let n = root.unicode_len();
    let mut k: usize = n;
    while k > 0 && root.get_char(k - 1) == '/'
        invariant
            k <= n,
            n == root@.len(),
            trim_to(root@, n as int) == trim_to(root@, k as int),
        decreases k,
    {
        k -= 1;
    }
    k
}

/// The first position at or after `i` of `s` that holds no separator.
fn skip_separators(s: &str, i: usize) -> (r: usize)
    requires
        i <= s@.len(),
    ensures
        r as int == skip_from(s@, i as int),
        i <= r <= s@.len(),
{
    let n = s.unicode_len();
    let mut k: usize = i;
    while k < n && s.get_char(k) == '/'
        invariant
            i <= k <= n,
            n == s@.len(),
            skip_from(s@, i as int) == skip_from(s@, k as int),
        decreases n - k,
    {
        k += 1;
    }
    k
}

/// Whether `path` lies under `root`.
pub fn is_under(path: &str, root: &str) -> (r: bool)
    ensures
        r == under(path@, root@),
{
    if root.unicode_len() == 0 {
        return !first_char_is(path, '/');
    }
    let m = root_len(root);
    if m == 0 {
        return first_char_is(path, '/');
    }
    let r = root.substring_char(0, m);
    if !starts_with_exec(path, r) {
        return false;
    }
    let n = path.unicode_len();
    n == m || path.get_char(m) == '/'
}

/// The path of `path` relative to `base_path`: what follows the root and
/// the separators after it. It never starts with a separator.
pub fn get_relative_path(base_path: &str, path: &str) -> (r: Result<String, PathError>)
    ensures
        r is Ok <==> under(path@, base_path@),
        r is Ok ==> r->Ok_0@ == relative(path@, base_path@),
        r is Ok ==> r->Ok_0@.len() == 0 || r->Ok_0@[0] != '/',
{
    if !is_under(path, base_path) {
        return Err(PathError::NotUnder);
    }
    if base_path.unicode_len() == 0 {
        return Ok(path.to_owned());
    }
    let m = root_len(base_path);
    let n = path.unicode_len();
    proof {
        lemma_trim_to(base_path@, base_path@.len() as int);
        assert(root_part(base_path@).len() == m);
    }
    let start = skip_separators(path, m);
    proof {
        lemma_skip_from(path@, m as int);
    }
    Ok(path.substring_char(start, n).to_owned())
}

/// The position of the last `c` in `s`.
pub fn last_index(s: &str, c: char) -> (r: Option<usize>)
    ensures
        match r {
            Some(i) => i as int == last_index_of(s@, c) && i < s@.len(),
            None => last_index_of(s@, c) == -1,
        },
{
    let n = s.unicode_len();
    let mut k: usize = n;
    assert(s@.subrange(0, n as int) =~= s@);
    while k > 0
        invariant
            k <= n,
            n == s@.len(),
            last_index_of(s@, c) == last_index_of(s@.subrange(0, k as int), c),
        decreases k,
    {
        let ghost pre = s@.subrange(0, k as int);
        assert(pre.drop_last() =~= s@.subrange(0, k - 1));
        if s.get_char(k - 1) == c {
            return Some(k - 1);
        }
        k -= 1;
    }
    assert(s@.subrange(0, 0).len() == 0);
    None
}

/// `path` with the extension of its file name replaced by `ext`.
pub fn set_extension(path: &str, ext: &str) -> (r: String)
    ensures
        r@ == with_extension(path@, ext@),
{
    let n = path.unicode_len();
    let start = match last_index(path, '/') {
        Some(i) => i + 1,
        None => 0,
    };
    let name = path.substring_char(start, n);
    let nl = name.unicode_len();
    if nl == 0 || (nl == 2 && name.get_char(0) == '.' && name.get_char(1) == '.') {
        proof {
            if nl == 2 && name@[0] == '.' && name@[1] == '.' {
                assert(name@ =~= seq!['.', '.']);
            }
        }
        return path.to_owned();
    }
    proof {
        assert(name@ != seq!['.', '.']) by {
            if name@ == seq!['.', '.'] {
                assert(name@[0] == '.' && name@[1] == '.');
            }
        }
    }
    let stem = match last_index(name, '.') {
        Some(d) => if d > 0 { name.substring_char(0, d) } else { name },
        None => name,
    };
    let mut r = path.substring_char(0, start).to_owned();
    r.append(stem);
    if ext.unicode_len() > 0 {
        r.append(".");
        proof {
            reveal_strlit(".");
        }
        r.append(ext);
        proof {
            assert(r@ =~= path@.subrange(0, start as int) + stem@ + (seq!['.'] + ext@));
        }
    } else {
        proof {
            assert(r@ =~= path@.subrange(0, start as int) + stem@ + seq![]);
        }
    }
    r
}

} // verus!
