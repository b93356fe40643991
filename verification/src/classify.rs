//! The name classifier: tells whether a name has an extension, and which.
//!
//! The rules read a text as one name: its first character decides whether it
//! is hidden, and its last `.` where the extension starts. The path composer
//! asks them about the last component of a path. Whether the name is that of
//! a directory is a fact about the file system; the caller looks it up and
//! passes it in.

use vstd::prelude::*;
use crate::text::{to_chars, to_string};

verus! {

/// The index of the last `c` in `s`, or -1 where `s` holds none.
pub open spec fn last_index_of(s: Seq<char>, c: char) -> int
    decreases s.len(),
{
    if s.len() == 0 {
        -1
    } else if s.last() == c {
        s.len() - 1
    } else {
        last_index_of(s.drop_last(), c)
    }
}

/// `last_index_of` names a place that holds `c` with no `c` behind it, and
/// is -1 exactly where `s` holds no `c`.
pub proof fn lemma_last_index_of(s: Seq<char>, c: char)
    ensures
        -1 <= last_index_of(s, c) < s.len(),
        last_index_of(s, c) >= 0 ==> s[last_index_of(s, c)] == c,
        forall|i: int| last_index_of(s, c) < i < s.len() ==> s[i] != c,
        last_index_of(s, c) >= 0 <==> s.contains(c),
    decreases s.len(),
{
    if s.len() > 0 {
        let init = s.drop_last();
        lemma_last_index_of(init, c);
        if s.last() != c {
            assert forall|i: int| last_index_of(s, c) < i < s.len() implies s[i] != c by {
                if i < init.len() {
                    assert(s[i] == init[i]);
                }
            }
            if last_index_of(s, c) >= 0 {
                assert(s[last_index_of(s, c)] == init[last_index_of(init, c)]);
            }
            if s.contains(c) {
                let i = choose|i: int| 0 <= i < s.len() && s[i] == c;
                assert(init[i] == c);
            }
        }
    }
}

/// The name holds a `.`.
pub open spec fn holds_dot(name: Seq<char>) -> bool {
    name.contains('.')
}

/// The name starts with a `.`.
pub open spec fn starts_with_dot(name: Seq<char>) -> bool {
    name.len() > 0 && name.first() == '.'
}

/// The path has an extension: it holds a `.`, is no directory and does not
/// start with a `.`.
pub open spec fn holds_extension(path: Seq<char>, is_dir: bool) -> bool {
    holds_dot(path) && !is_dir && !starts_with_dot(path)
}

/// What follows the last `.` of `s`; all of `s` where it holds none.
pub open spec fn after_last_dot(s: Seq<char>) -> Seq<char> {
    s.skip(last_index_of(s, '.') + 1)
}

/// The extension of the path: what follows its last `.`, or nothing where
/// the path has no extension.
pub open spec fn extension_of(path: Seq<char>, is_dir: bool) -> Seq<char> {
    if holds_extension(path, is_dir) {
        after_last_dot(path)
    } else {
        Seq::empty()
    }
}

/// Where the last `c` of `s` stands.
pub fn find_last(s: &Vec<char>, c: char) -> (found: Option<usize>)
    ensures
        match found {
            Some(i) => i == last_index_of(s@, c),
            None => last_index_of(s@, c) == -1,
        },
{
    let mut i: usize = s.len();
    assert(s@.take(i as int) == s@);
    while i > 0
        invariant
            i <= s@.len(),
            last_index_of(s@, c) == last_index_of(s@.take(i as int), c),
        decreases i,
    {
        if s[i - 1] == c {
            return Some(i - 1);
        }
        assert(s@.take(i as int).drop_last() == s@.take(i - 1));
        i -= 1;
    }
    None
}

/// Whether the name holds at least one `.`.
pub fn has_dot(name: &str) -> (b: bool)
    ensures
        b == holds_dot(name@),
{
    let chars = to_chars(name);
    proof {
        lemma_last_index_of(name@, '.');
    }
    find_last(&chars, '.').is_some()
}

/// Whether the first character of the name is a `.`.
pub fn is_hidden(name: &str) -> (b: bool)
    ensures
        b == starts_with_dot(name@),
{
    let mut it = name.chars();
    match it.next() {
        Some(c) => c == '.',
        None => false,
    }
}

/// Whether the path has an extension. A directory has none, whatever its
/// name, and neither has a name that starts with a `.`.
pub fn has_extension(path_str: &str, is_dir: bool) -> (b: bool)
    ensures
        b == holds_extension(path_str@, is_dir),
        is_dir ==> !b,
{
    has_dot(path_str) && !is_dir && !is_hidden(path_str)
}

/// The extension of the path, without its `.`; empty where it has none.
pub fn extract_extension(path_str: &str, is_dir: bool) -> (extension: String)
    ensures
        extension@ == extension_of(path_str@, is_dir),
        is_dir ==> extension@.len() == 0,
        !extension@.contains('.'),
{
    proof {
        lemma_last_index_of(path_str@, '.');
    }
    if has_extension(path_str, is_dir) {
        let chars = to_chars(path_str);
        match find_last(&chars, '.') {
            Some(i) => {
                assert(i < chars.len());
                proof {
                    let ext = after_last_dot(path_str@);
                    assert forall|k: int| 0 <= k < ext.len() implies ext[k] != '.' by {
                        assert(ext[k] == path_str@[i + 1 + k]);
                    }
                }
                to_string(&chars, i + 1, chars.len())
            },
            None => String::new(),
        }
    } else {
        String::new()
    }
}

/// An extension holds no `.`, and a directory has no extension.
pub proof fn lemma_extension_of(path: Seq<char>, is_dir: bool)
    ensures
        !extension_of(path, is_dir).contains('.'),
        is_dir ==> extension_of(path, is_dir).len() == 0,
{
    lemma_last_index_of(path, '.');
    let ext = extension_of(path, is_dir);
    if holds_extension(path, is_dir) {
        assert forall|k: int| 0 <= k < ext.len() implies ext[k] != '.' by {
            assert(ext[k] == path[last_index_of(path, '.') + 1 + k]);
        }
    }
}

/// What follows the last `.` of `stem.extension` is `extension`, where
/// `extension` holds no `.` itself.
pub proof fn lemma_after_last_dot_of_joined(stem: Seq<char>, extension: Seq<char>)
    requires
        !extension.contains('.'),
    ensures
        after_last_dot(stem + seq!['.'] + extension) == extension,
        after_last_dot(extension) == extension,
{
    let joined = stem + seq!['.'] + extension;
    lemma_last_index_of(joined, '.');
    lemma_last_index_of(extension, '.');
    let at = last_index_of(joined, '.');
    let dot = stem.len() as int;
    assert(joined[dot] == '.');
    if at > dot {
        assert(joined[at] == extension[at - dot - 1]);
    }
    assert(at == dot);
    assert(joined.skip(dot + 1) =~= extension);
    assert(extension.skip(0) =~= extension);
}

} // verus!
