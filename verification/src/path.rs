//! Slash-separated paths: how they split into segments, and the reserved names.

use vstd::prelude::*;
use vstd::string::StrSliceExecFns;
use vstd::string::StringExecFns;
use vstd::string::StringSliceAdditionalSpecFns;

verus! {

broadcast use vstd::string::group_string_axioms;

/// The character that separates the segments of a path.
pub const SEPARATOR: char = '/';

/// The character that a hidden name begins with, and that alone stands for the
/// directory itself.
pub const MARKER: char = '.';

/// The character that separates the segments of a path.
pub open spec fn separator() -> char {
    SEPARATOR
}

/// The segment that stands for the directory itself.
pub open spec fn self_alias() -> Seq<char> {
    seq![MARKER]
}

/// Whether a name marks a directory or a file that listings leave out.
pub open spec fn is_hidden(name: Seq<char>) -> bool {
    name.len() > 0 && name[0] == MARKER
}

/// A path cut at its first separator: what stands before it and what stands after it.
/// `None` when the path holds no separator.
pub open spec fn split_first(path: Seq<char>) -> Option<(Seq<char>, Seq<char>)> {
    match path.index_of_first(separator()) {
        Some(i) => Some((path.subrange(0, i), path.subrange(i + 1, path.len() as int))),
        None => None,
    }
}

/// A path cut at its last separator: what stands before it and what stands after it.
/// `None` when the path holds no separator.
pub open spec fn split_last(path: Seq<char>) -> Option<(Seq<char>, Seq<char>)> {
    match path.index_of_last(separator()) {
        Some(i) => Some((path.subrange(0, i), path.subrange(i + 1, path.len() as int))),
        None => None,
    }
}

/// The last segment of a path: what stands after its last separator, or all of it.
pub open spec fn leaf(path: Seq<char>) -> Seq<char> {
    match split_last(path) {
        Some((_, name)) => name,
        None => path,
    }
}

/// The path of what is named `name` in a directory at `path`: the name alone below an
/// empty path, else the path, a separator and the name.
pub open spec fn joined(path: Seq<char>, name: Seq<char>) -> Seq<char> {
    if path.len() == 0 {
        name
    } else {
        path + seq![separator()] + name
    }
}

/// The path of what is named `name` in a directory at `path`.
pub fn join(path: &str, name: &str) -> (p: String)
    ensures
        p@ == joined(path@, name@),
        p@.len() <= usize::MAX,
{
    let p = if path.is_empty() {
        name.to_owned()
    } else {
        let mut p = path.to_owned();
        p.append("/");
        p.append(name);
        proof {
            reveal_strlit("/");
            assert("/"@ =~= seq![separator()]);
        }
        p
    };
    // The bytes of the path are counted by a `usize`, and so are its characters.
    let _ = byte_len(p.as_str());
    p
}

/// Both halves of a cut path are shorter than the path.
pub proof fn lemma_split_first_shorter(path: Seq<char>)
    ensures
        split_first(path) matches Some((head, rest)) ==> head.len() < path.len() && rest.len()
            < path.len() && !head.contains(separator()) && path == head + seq![separator()] + rest,
        split_first(path) is None <==> !path.contains(separator()),
{
    path.index_of_first_ensures(separator());
    if let Some(i) = path.index_of_first(separator()) {
        let head = path.subrange(0, i);
        let rest = path.subrange(i + 1, path.len() as int);
        assert(path =~= head + seq![separator()] + rest);
        if head.contains(separator()) {
            let j = choose|j: int| 0 <= j < head.len() && head[j] == separator();
            assert(path[j] == separator());
        }
    }
}

/// Both halves of a path cut at its last separator are shorter than the path.
pub proof fn lemma_split_last_shorter(path: Seq<char>)
    ensures
        split_last(path) matches Some((dir, name)) ==> dir.len() < path.len() && name.len()
            < path.len() && !name.contains(separator()) && path == dir + seq![separator()] + name,
        split_last(path) is None <==> !path.contains(separator()),
{
    path.index_of_last_ensures(separator());
    if let Some(i) = path.index_of_last(separator()) {
        let dir = path.subrange(0, i);
        let name = path.subrange(i + 1, path.len() as int);
        assert(path =~= dir + seq![separator()] + name);
        if name.contains(separator()) {
            let j = choose|j: int| 0 <= j < name.len() && name[j] == separator();
            assert(path[i + 1 + j] == separator());
        }
    }
}

/// The positions of the first and of the last separator in `path`, counted in characters,
/// and the number of characters of `path`.
fn scan(path: &str) -> (r: (Option<usize>, Option<usize>, usize))
    ensures
        r.2 == path@.len(),
        r.0 matches Some(i) ==> path@.index_of_first(separator()) == Some(i as int),
        r.0 is None ==> path@.index_of_first(separator()) is None,
        r.1 matches Some(i) ==> path@.index_of_last(separator()) == Some(i as int),
        r.1 is None ==> path@.index_of_last(separator()) is None,
{
    let bound = byte_len(path);
    let mut first: Option<usize> = None;
    let mut last: Option<usize> = None;
    let mut i: usize = 0;
    for c in it: path.chars()
        invariant
            i == it.index(),
            it.seq() == path@,
            path@.len() <= bound,
            first is None <==> last is None,
            first is None ==> forall|j: int| 0 <= j < i ==> path@[j] != separator(),
            first matches Some(f) ==> f < i && path@[f as int] == separator() && forall|j: int|
                0 <= j < f ==> path@[j] != separator(),
            last matches Some(l) ==> l < i && path@[l as int] == separator() && forall|j: int|
                l < j < i ==> path@[j] != separator(),
    {
        if c == SEPARATOR {
            if first.is_none() {
                first = Some(i);
            }
            last = Some(i);
        }
        i += 1;
    }
    proof {
        path@.index_of_first_ensures(separator());
        path@.index_of_last_ensures(separator());
        match first {
            Some(f) => {
                assert(path@.contains(separator()));
            },
            None => {
                if path@.contains(separator()) {
                    let j = choose|j: int| 0 <= j < path@.len() && path@[j] == separator();
                    assert(path@[j] != separator());
                }
            },
        }
    }
    (first, last, i)
}

/// Cuts `path` at its first separator.
pub fn split_once(path: &str) -> (r: Option<(&str, &str)>)
    ensures
        r matches Some((head, rest)) ==> split_first(path@) == Some((head@, rest@)),
        r is None ==> split_first(path@) is None,
{
    let (first, _, n) = scan(path);
    match first {
        Some(i) => {
            proof {
                path@.index_of_first_ensures(separator());
            }
            Some((path.substring_char(0, i), path.substring_char(i + 1, n)))
        },
        None => None,
    }
}

/// Cuts `path` at its last separator.
pub fn rsplit_once(path: &str) -> (r: Option<(&str, &str)>)
    ensures
        r matches Some((dir, name)) ==> split_last(path@) == Some((dir@, name@)),
        r is None ==> split_last(path@) is None,
{
    let (_, last, n) = scan(path);
    match last {
        Some(i) => {
            proof {
                path@.index_of_last_ensures(separator());
            }
            Some((path.substring_char(0, i), path.substring_char(i + 1, n)))
        },
        None => None,
    }
}

/// Every character takes at least one byte.
pub proof fn lemma_chars_within_bytes(s: Seq<char>)
    ensures
        s.len() <= vstd::utf8::encode_utf8(s).len(),
    decreases s.len(),
{
    if s.len() > 0 {
        lemma_chars_within_bytes(s.drop_first());
    }
}

/// The number of bytes of `s`, which bounds its number of characters.
pub fn byte_len(s: &str) -> (n: usize)
    ensures
        n == s.spec_bytes().len(),
        s@.len() <= n,
{
    proof {
        lemma_chars_within_bytes(s@);
    }
    s.as_bytes().len()
}

/// Whether `name` is the segment that stands for the directory itself.
pub fn is_self_alias(name: &str) -> (b: bool)
    ensures
        b == (name@ == self_alias()),
{
    let n = name.unicode_len();
    if n == 1 {
        let c = name.get_char(0);
        assert(name@ =~= seq![c]);
        c == MARKER
    } else {
        false
    }
}

/// Whether listings leave `name` out.
pub fn starts_hidden(name: &str) -> (b: bool)
    ensures
        b == is_hidden(name@),
{
    if name.is_empty() {
        false
    } else {
        name.get_char(0) == MARKER
    }
}

} // verus!
