//! Path-string primitives: file-name and extension extraction, and joining a
//! directory path with an entry name.
//!
//! A path is modelled as a sequence of characters. The file name of a path is
//! everything after the last `/`; the extension of a file name is everything
//! after the last `.`, and a name without a `.` has no extension.

use vstd::prelude::*;
use vstd::string::StrSliceExecFns;
use vstd::string::StringExecFns;

verus! {

/// Index of the last occurrence of `c` in `s`, or -1 when `c` does not occur.
pub open spec fn last_sep(s: Seq<char>, c: char) -> int
    decreases s.len(),
{
    if s.len() == 0 {
        -1
    } else if s.last() == c {
        s.len() - 1
    } else {
        last_sep(s.drop_last(), c)
    }
}

/// `last_sep` is a valid index of an occurrence of `c`, with no later
/// occurrence, and is -1 exactly when `c` does not occur at all.
pub proof fn lemma_last_sep(s: Seq<char>, c: char)
    ensures
        -1 <= last_sep(s, c) < s.len(),
        last_sep(s, c) >= 0 ==> s[last_sep(s, c)] == c,
        forall|j: int| last_sep(s, c) < j < s.len() ==> s[j] != c,
    decreases s.len(),
{
    if s.len() > 0 && s.last() != c {
        lemma_last_sep(s.drop_last(), c);
        assert forall|j: int| last_sep(s, c) < j < s.len() implies s[j] != c by {
            if j < s.len() - 1 {
                assert(s.drop_last()[j] == s[j]);
            }
        }
    }
}

/// The file-name component of a path: everything after the last `/`, or the
/// whole path when it contains no `/`.
pub open spec fn base_name(p: Seq<char>) -> Seq<char> {
    p.subrange(last_sep(p, '/') + 1, p.len() as int)
}

/// The extension of a file name: everything after the last `.`, or nothing
/// when the name contains no `.`.
pub open spec fn ext_of_name(name: Seq<char>) -> Option<Seq<char>> {
    if last_sep(name, '.') >= 0 {
        Some(name.subrange(last_sep(name, '.') + 1, name.len() as int))
    } else {
        None
    }
}

/// The extension of the file a path points at.
pub open spec fn ext_of_path(p: Seq<char>) -> Option<Seq<char>> {
    ext_of_name(base_name(p))
}

/// A directory path joined with an entry name by a single `/`.
pub open spec fn join_under(base: Seq<char>, name: Seq<char>) -> Seq<char> {
    base + seq!['/'] + name
}

/// The destination of a file `p` with extension `e`: the subfolder named `e`
/// under `base`, joined with the file's own name.
pub open spec fn dest_of(base: Seq<char>, e: Seq<char>, p: Seq<char>) -> Seq<char> {
    join_under(join_under(base, e), base_name(p))
}

/// Position of the last occurrence of `c` in `s`, if any.
fn last_pos_of(s: &str, c: char) -> (r: Option<usize>)
    ensures
        match r {
            Some(i) => last_sep(s@, c) == i as int,
            None => last_sep(s@, c) == -1,
        },
{
    let n: usize = s.unicode_len();
    let mut i: usize = 0;
    let mut best: Option<usize> = None;
    while i < n
        invariant
            n == s@.len(),
            i <= n,
            match best {
                Some(b) => last_sep(s@.take(i as int), c) == b as int,
                None => last_sep(s@.take(i as int), c) == -1,
            },
        decreases n - i,
    {
        let ch = s.get_char(i);
        proof {
            assert(s@.take(i as int + 1).drop_last() =~= s@.take(i as int));
            assert(s@.take(i as int + 1).last() == s@[i as int]);
        }
        if ch == c {
            best = Some(i);
        }
        i = i + 1;
    }
    proof {
        assert(s@.take(n as int) =~= s@);
    }
    best
}

/// The file-name component of a path.
pub fn file_name_of(path: &str) -> (r: String)
    ensures
        r@ == base_name(path@),
{
    let n: usize = path.unicode_len();
    match last_pos_of(path, '/') {
        Some(i) => {
            proof {
                lemma_last_sep(path@, '/');
            }
            path.substring_char(i + 1, n).to_owned()
        },
        None => {
            proof {
                assert(path@.subrange(0, path@.len() as int) =~= path@);
            }
            path.to_owned()
        },
    }
}

/// The extension of the file a path points at, if its name has one.
pub fn extension_of(path: &str) -> (r: Option<String>)
    ensures
        r.is_some() == ext_of_path(path@).is_some(),
        r.is_some() ==> r.unwrap()@ == ext_of_path(path@).unwrap(),
{
    let name = file_name_of(path);
    let s = name.as_str();
    let n: usize = s.unicode_len();
    match last_pos_of(s, '.') {
        Some(i) => {
            proof {
                lemma_last_sep(s@, '.');
            }
            Some(s.substring_char(i + 1, n).to_owned())
        },
        None => None,
    }
}

/// A directory path joined with an entry name by a single `/`.
pub fn join_path(base: &str, name: &str) -> (r: String)
    ensures
        r@ == join_under(base@, name@),
{
    let mut r = base.to_owned();
    r.append("/");
    r.append(name);
    proof {
        reveal_strlit("/");
        assert(("/")@ =~= seq!['/']);
        assert(r@ =~= base@ + seq!['/'] + name@);
    }
    r
}

/// The destination path of a move: `base/e/<file name of path>`.
pub fn move_dest(base: &str, ext: &str, path: &str) -> (r: String)
    ensures
        r@ == dest_of(base@, ext@, path@),
{
    let folder = join_path(base, ext);
    let name = file_name_of(path);
    join_path(folder.as_str(), name.as_str())
}

} // verus!
