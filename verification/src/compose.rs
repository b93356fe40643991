//! The path composer: sanitizes the last component of a path and puts the
//! path together again around it. The extension is that of the last
//! component: a `.` in the name of a parent directory is no concern of it.
//!
//! Splitting a path into its parent and its last component, and joining the
//! two, is left to `std::path`, so that trailing separators, `.` and `..` are
//! read as the operating system reads them. The results of those calls are
//! named by the spec functions below; everything else is proved.

use vstd::prelude::*;
use crate::classify::{
    after_last_dot,
    extension_of,
    extract_extension,
    last_index_of,
    lemma_after_last_dot_of_joined,
    lemma_extension_of,
    lemma_last_index_of,
};
use crate::sanitize::{
    has_no_runs,
    is_all_replacement,
    is_stable,
    lemma_collapsed,
    lemma_extension_leaves_no_trace,
    lemma_sanitized_idempotent,
    lemma_sanitized_is_stable,
    lemma_sanitized_shape,
    mapped,
    collapsed,
    sanitize_component,
    sanitized,
    SanitizeMode,
    MULTIPLICATION_SIGN,
};
use crate::text::{is_text, to_chars};

verus! {

/// What `std::path::Path::file_name` returns for the path: its last
/// component, if it ends in a normal one.
pub uninterp spec fn path_file_name(path: Seq<char>) -> Option<Seq<char>>;

/// What `std::path::Path::parent` returns for the path: the path without
/// its last component, if it has one.
pub uninterp spec fn path_parent(path: Seq<char>) -> Option<Seq<char>>;

/// What `std::path::PathBuf::push` makes of the path `base` when `name` is
/// pushed onto it.
pub uninterp spec fn path_join(base: Seq<char>, name: Seq<char>) -> Seq<char>;

/// The text of an optional string.
pub open spec fn text_of(s: Option<String>) -> Option<Seq<char>> {
    match s {
        Some(s) => Some(s@),
        None => None,
    }
}

/// Calls `std::path::Path::file_name`. The contract only names the result: it
/// is the last component of the path as the standard library reads it.
#[verifier::external_body]
fn file_name(path: &str) -> (name: Option<String>)
    ensures
        text_of(name) == path_file_name(path@),
{
    match std::path::Path::new(path).file_name() {
        Some(name) => Some(name.to_string_lossy().into_owned()),
        None => None,
    }
}

/// Calls `std::path::Path::parent`. The contract only names the result: it is
/// the path without its last component as the standard library reads it.
#[verifier::external_body]
fn parent(path: &str) -> (dir: Option<String>)
    ensures
        text_of(dir) == path_parent(path@),
{
    match std::path::Path::new(path).parent() {
        Some(dir) => Some(dir.to_string_lossy().into_owned()),
        None => None,
    }
}

/// Calls `std::path::PathBuf::push` on a path made of `base`. The contract
/// only names the result: it is `base` extended by `name` as the standard
/// library joins them.
#[verifier::external_body]
fn join(base: &str, name: &str) -> (joined: String)
    ensures
        joined@ == path_join(base@, name@),
{
    let mut buf = std::path::PathBuf::from(base);
    buf.push(name);
    buf.to_string_lossy().into_owned()
}

/// The parent is put back in front of the name: there is one, and it is
/// neither empty nor the current directory.
pub open spec fn keeps_parent(dir: Option<Seq<char>>) -> bool {
    dir matches Some(d) && d.len() > 0 && d != "."@
}

/// The sanitized name under its parent, where the parent is kept.
pub open spec fn under_parent(dir: Option<Seq<char>>, base: Seq<char>) -> Seq<char> {
    if keeps_parent(dir) {
        path_join(dir->0, base)
    } else {
        base
    }
}

/// The last component of the path, or the empty name where it has none.
pub open spec fn last_component(path: Seq<char>) -> Seq<char> {
    match path_file_name(path) {
        Some(name) => name,
        None => Seq::empty(),
    }
}

/// The extension of the last component of the path.
pub open spec fn path_extension(path: Seq<char>, is_dir: bool) -> Seq<char> {
    extension_of(last_component(path), is_dir)
}

/// The path `stem`, which ends in the sanitized name `base`, with the
/// extension behind it: after a `.` where the base is not empty, directly
/// where it is empty, and not at all where there is no extension.
pub open spec fn with_extension(stem: Seq<char>, base: Seq<char>, extension: Seq<char>) -> Seq<
    char,
> {
    if extension.len() == 0 {
        stem
    } else if base.len() == 0 {
        stem + extension
    } else {
        stem + seq!['.'] + extension
    }
}

/// The sanitized base name of the path: the sanitized form of its last
/// component, with the extension of that component.
pub open spec fn sanitized_base(
    path: Seq<char>,
    is_dir: bool,
    replacement: char,
    mode: SanitizeMode,
) -> Seq<char> {
    sanitized(last_component(path), replacement, path_extension(path, is_dir), mode)
}

/// The sanitized path: only the last component is sanitized; the parent stays
/// as it is, and the extension of the last component goes back behind its `.`.
pub open spec fn sanitized_path(
    path: Seq<char>,
    is_dir: bool,
    replacement: char,
    mode: SanitizeMode,
) -> Seq<char> {
    with_extension(
        under_parent(path_parent(path), sanitized_base(path, is_dir, replacement, mode)),
        sanitized_base(path, is_dir, replacement, mode),
        path_extension(path, is_dir),
    )
}

/// Whether the parent is put back in front of the sanitized name.
pub fn parent_is_kept(dir: &Option<String>) -> (b: bool)
    ensures
        b == keeps_parent(text_of(*dir)),
{
    match dir {
        Some(d) => {
            let chars = to_chars(d.as_str());
            chars.len() > 0 && !is_text(&chars, ".")
        },
        None => false,
    }
}

/// Puts the extension behind the path `stem`, which ends in the sanitized
/// name `base`.
pub fn attach_extension(stem: String, base: &str, extension: &str) -> (path: String)
    ensures
        path@ == with_extension(stem@, base@, extension@),
{
    let mut path = stem;
    if !extension.is_empty() {
        if !base.is_empty() {
            path.push('.');
        }
        path.append(extension);
    }
    path
}

/// The name that the path should have: its last component sanitized, under
/// the same parent and with the same extension. The extension is read from
/// the last component. `is_dir` says whether the path is a directory now; a
/// directory has no extension. The replacement character is meant not to be
/// `/`, which would add components to the path.
pub fn sanitized_filename(
    input_file: &str,
    is_dir: bool,
    replacement: char,
    mode: SanitizeMode,
) -> (path: String)
    ensures
        path@ == sanitized_path(input_file@, is_dir, replacement, mode),
        is_dir ==> path@ == under_parent(
            path_parent(input_file@),
            sanitized(last_component(input_file@), replacement, Seq::empty(), mode),
        ),
{
    let name = match file_name(input_file) {
        Some(name) => name,
        None => String::new(),
    };
    let extension = extract_extension(name.as_str(), is_dir);
    let base = sanitize_component(name.as_str(), replacement, extension.as_str(), mode);
    let dir = parent(input_file);
    let stem = if parent_is_kept(&dir) {
        match dir {
            Some(d) => join(d.as_str(), base.as_str()),
            None => base.clone(),
        }
    } else {
        base.clone()
    };
    attach_extension(stem, base.as_str(), extension.as_str())
}

/// The extension comes through: where the last component of the path has an
/// extension, the sanitized path ends in that extension. Where anything is
/// left of the name, the extension stands behind a `.`, and is what follows
/// the last `.` of the sanitized path.
pub proof fn lemma_extension_round_trip(
    path: Seq<char>,
    is_dir: bool,
    replacement: char,
    mode: SanitizeMode,
)
    requires
        path_extension(path, is_dir).len() > 0,
    ensures
        path_extension(path, is_dir).is_suffix_of(
            sanitized_path(path, is_dir, replacement, mode),
        ),
        sanitized_base(path, is_dir, replacement, mode).len() > 0 ==> (seq!['.'] + path_extension(
            path,
            is_dir,
        )).is_suffix_of(sanitized_path(path, is_dir, replacement, mode)) && after_last_dot(
            sanitized_path(path, is_dir, replacement, mode),
        ) == path_extension(path, is_dir),
{
    let ext = path_extension(path, is_dir);
    let base = sanitized_base(path, is_dir, replacement, mode);
    let stem = under_parent(path_parent(path), base);
    let out = sanitized_path(path, is_dir, replacement, mode);
    lemma_extension_of(last_component(path), is_dir);
    lemma_after_last_dot_of_joined(stem, ext);
    assert(out.skip(out.len() - ext.len()) =~= ext);
    if base.len() > 0 {
        let tail = seq!['.'] + ext;
        assert(out.skip(out.len() - tail.len()) =~= tail);
    }
}

/// A directory is never read as having an extension: its whole name is
/// sanitized as one component, and nothing is put behind it.
pub proof fn lemma_directory_has_no_extension(
    path: Seq<char>,
    replacement: char,
    mode: SanitizeMode,
)
    ensures
        path_extension(path, true).len() == 0,
        sanitized_path(path, true, replacement, mode) == under_parent(
            path_parent(path),
            sanitized(last_component(path), replacement, Seq::empty(), mode),
        ),
{
}

/// The file name that a sanitized path ends in is sanitized already. Where
/// `name` has an extension that the passes leave as it is, and something is
/// left of the name, the new file name is `base.extension`; read again, it
/// has the same extension and the same sanitized base, so that sanitizing it
/// again changes nothing. In the legacy mode the base must hold no
/// multiplication sign, which that mode rewrites.
pub proof fn lemma_sanitized_file_name_is_fixed_point(
    name: Seq<char>,
    replacement: char,
    mode: SanitizeMode,
)
    requires
        extension_of(name, false).len() > 0,
        is_stable(extension_of(name, false), replacement, mode),
        has_no_runs(extension_of(name, false), replacement),
        extension_of(name, false).first() != replacement,
        sanitized(name, replacement, extension_of(name, false), mode).len() > 0,
        mode == SanitizeMode::Legacy ==> !sanitized(
            name,
            replacement,
            extension_of(name, false),
            mode,
        ).contains(MULTIPLICATION_SIGN),
    ensures
        ({
            let extension = extension_of(name, false);
            let base = sanitized(name, replacement, extension, mode);
            let again = base + seq!['.'] + extension;
            &&& extension_of(again, false) == extension
            &&& sanitized(again, replacement, extension, mode) == base
            &&& with_extension(
                sanitized(again, replacement, extension_of(again, false), mode),
                sanitized(again, replacement, extension_of(again, false), mode),
                extension_of(again, false),
            ) == again
        }),
{
    let extension = extension_of(name, false);
    let base = sanitized(name, replacement, extension, mode);
    let again = base + seq!['.'] + extension;
    lemma_last_index_of(name, '.');
    lemma_extension_of(name, false);
    let dot = last_index_of(name, '.');
    let stem = name.take(dot);
    assert(name =~= stem + seq!['.'] + extension);
    lemma_extension_leaves_no_trace(stem, extension, replacement, mode);
    let m = mapped(stem, replacement, mode);
    assert(!is_all_replacement(m, replacement));
    assert(base == sanitized(stem, replacement, Seq::empty(), mode));
    lemma_sanitized_shape(stem, replacement, Seq::empty(), mode);
    lemma_collapsed(m, replacement);
    if base == seq![replacement] {
        let c = collapsed(m, replacement);
        assert(c == seq![replacement]);
        assert forall|i: int| 0 <= i < m.len() implies m[i] == replacement by {
            assert(c.contains(m[i]));
            let j = choose|j: int| 0 <= j < c.len() && c[j] == m[i];
            assert(c[j] == replacement);
        }
    }
    lemma_sanitized_is_stable(stem, replacement, Seq::empty(), mode);
    assert(mapped(base, replacement, mode) == base);
    assert(base.first() != replacement);
    assert(!is_all_replacement(mapped(base, replacement, mode), replacement));
    lemma_extension_leaves_no_trace(base, extension, replacement, mode);
    lemma_sanitized_idempotent(stem, replacement, Seq::empty(), Seq::empty(), mode);
    lemma_after_last_dot_of_joined(base, extension);
    assert(again[base.len() as int] == '.');
    assert(again.first() == base.first());
    assert(base.first() != '.') by {
        assert(mapped(base, replacement, mode)[0] == base[0]);
    }
    assert(base + seq!['.'] + extension =~= again);
}

} // verus!
