//! The component sanitizer: maps one file or directory name to a safe name.
//!
//! The transformation has four passes, each a spec function on `Seq<char>`:
//! every character is mapped, runs of the replacement character are collapsed,
//! a trailing `<replacement><extension>` is removed, and replacement characters
//! are trimmed from both ends.

use vstd::prelude::*;
use crate::text::{is_ascii_alnum, is_ascii_alphanumeric, is_space, is_whitespace, to_chars, to_string};

verus! {

/// Which characters are replaced.
#[derive(Debug, Clone, Copy, PartialEq, Eq, Structural)]
pub enum SanitizeMode {
    /// Replaces a fixed set of punctuation, brackets and white space, and
    /// writes the multiplication sign as the letter `x`.
    Legacy,
    /// Replaces everything but ASCII letters, ASCII digits, `_` and `-`.
    Full,
}

/// The multiplication sign, U+00D7.
pub const MULTIPLICATION_SIGN: char = '\u{d7}';

/// Punctuation and brackets that the legacy mode replaces.
pub open spec fn is_legacy_punctuation(c: char) -> bool {
    ||| c == '.'
    ||| c == ','
    ||| c == '"'
    ||| c == ':'
    ||| c == '?'
    ||| c == '\''
    ||| c == '#'
    ||| c == ';'
    ||| c == '&'
    ||| c == '*'
    ||| c == '\\'
    ||| c == '('
    ||| c == ')'
    ||| c == '['
    ||| c == ']'
}

/// Characters that the full mode keeps.
pub open spec fn is_full_safe(c: char) -> bool {
    is_ascii_alnum(c) || c == '_' || c == '-'
}

/// What one character becomes under `mode`.
pub open spec fn mapped_char(c: char, replacement: char, mode: SanitizeMode) -> char {
    match mode {
        SanitizeMode::Legacy => if c == MULTIPLICATION_SIGN {
            'x'
        } else if is_space(c) || is_legacy_punctuation(c) {
            replacement
        } else {
            c
        },
        SanitizeMode::Full => if is_full_safe(c) {
            c
        } else {
            replacement
        },
    }
}

/// The first pass: every character mapped, one for one.
pub open spec fn mapped(s: Seq<char>, replacement: char, mode: SanitizeMode) -> Seq<char> {
    Seq::new(s.len(), |i: int| mapped_char(s[i], replacement, mode))
}

/// The second pass: a replacement character that follows another one is dropped.
pub open spec fn collapsed(s: Seq<char>, replacement: char) -> Seq<char>
    decreases s.len(),
{
    if s.len() == 0 {
        s
    } else if s.len() >= 2 && s.last() == replacement && s[s.len() - 2] == replacement {
        collapsed(s.drop_last(), replacement)
    } else {
        collapsed(s.drop_last(), replacement).push(s.last())
    }
}

/// The tail that the mapping pass leaves where the name ended in `.extension`.
pub open spec fn extension_suffix(replacement: char, extension: Seq<char>) -> Seq<char> {
    seq![replacement] + extension
}

/// The third pass: one trailing `<replacement><extension>` removed, if the
/// extension is not empty and the name ends with it.
pub open spec fn stripped(s: Seq<char>, replacement: char, extension: Seq<char>) -> Seq<char> {
    if extension.len() > 0 && extension_suffix(replacement, extension).is_suffix_of(s) {
        s.take(s.len() - extension.len() - 1)
    } else {
        s
    }
}

/// `s` without its leading replacement characters.
pub open spec fn trimmed_start(s: Seq<char>, replacement: char) -> Seq<char>
    decreases s.len(),
{
    if s.len() > 0 && s.first() == replacement {
        trimmed_start(s.drop_first(), replacement)
    } else {
        s
    }
}

/// `s` without its trailing replacement characters.
pub open spec fn trimmed_end(s: Seq<char>, replacement: char) -> Seq<char>
    decreases s.len(),
{
    if s.len() > 0 && s.last() == replacement {
        trimmed_end(s.drop_last(), replacement)
    } else {
        s
    }
}

/// The fourth pass: replacement characters trimmed from both ends; a name that
/// was not empty and held nothing else keeps one replacement character.
pub open spec fn trimmed(s: Seq<char>, replacement: char) -> Seq<char> {
    let t = trimmed_end(trimmed_start(s, replacement), replacement);
    if t.len() == 0 && s.len() > 0 {
        seq![replacement]
    } else {
        t
    }
}

/// The sanitized form of one component.
pub open spec fn sanitized(
    name: Seq<char>,
    replacement: char,
    extension: Seq<char>,
    mode: SanitizeMode,
) -> Seq<char> {
    trimmed(
        stripped(collapsed(mapped(name, replacement, mode), replacement), replacement, extension),
        replacement,
    )
}

/// Maps one character.
pub fn map_char(c: char, replacement: char, mode: SanitizeMode) -> (m: char)
    ensures
        m == mapped_char(c, replacement, mode),
{
    match mode {
        SanitizeMode::Legacy => {
            if c == MULTIPLICATION_SIGN {
                'x'
            } else if is_whitespace(c) || c == '.' || c == ',' || c == '"' || c == ':' || c == '?'
                || c == '\'' || c == '#' || c == ';' || c == '&' || c == '*' || c == '\\' || c
                == '(' || c == ')' || c == '[' || c == ']' {
                replacement
            } else {
                c
            }
        },
        SanitizeMode::Full => {
            if is_ascii_alphanumeric(c) || c == '_' || c == '-' {
                c
            } else {
                replacement
            }
        },
    }
}

/// The mapping pass on a whole name.
pub fn map_chars(name: &Vec<char>, replacement: char, mode: SanitizeMode) -> (out: Vec<char>)
    ensures
        out@ == mapped(name@, replacement, mode),
{
    let mut out: Vec<char> = Vec::with_capacity(name.len());
    let mut i: usize = 0;
    while i < name.len()
        invariant
            i <= name@.len(),
            out@ == mapped(name@, replacement, mode).take(i as int),
        decreases name@.len() - i,
    {
        out.push(map_char(name[i], replacement, mode));
        i += 1;
    }
    out
}

/// The collapse pass.
pub fn collapse(s: &Vec<char>, replacement: char) -> (out: Vec<char>)
    ensures
        out@ == collapsed(s@, replacement),
{
    let mut out: Vec<char> = Vec::with_capacity(s.len());
    let mut prev_was_replacement = false;
    let mut i: usize = 0;
    while i < s.len()
        invariant
            i <= s@.len(),
            out@ == collapsed(s@.take(i as int), replacement),
            prev_was_replacement == (i > 0 && s@[i - 1] == replacement),
        decreases s@.len() - i,
    {
        let c = s[i];
        assert(s@.take(i + 1).drop_last() == s@.take(i as int));
        if c == replacement {
            if !prev_was_replacement {
                out.push(c);
            }
            prev_was_replacement = true;
        } else {
            out.push(c);
            prev_was_replacement = false;
        }
        i += 1;
    }
    assert(s@.take(i as int) == s@);
    out
}

/// Whether `s` ends with `<replacement><extension>`.
pub fn ends_with_extension(s: &Vec<char>, replacement: char, extension: &Vec<char>) -> (b: bool)
    ensures
        b == extension_suffix(replacement, extension@).is_suffix_of(s@),
{
    let n = extension.len();
    if s.len() <= n {
        return false;
    }
    let start: usize = s.len() - n;
    let ghost suffix = extension_suffix(replacement, extension@);
    let ghost tail = s@.skip(s@.len() - suffix.len());
    if s[start - 1] != replacement {
        assert(tail[0] != suffix[0]);
        return false;
    }
    let mut i: usize = 0;
    while i < n
        invariant
            i <= n,
            n == extension@.len(),
            start + n == s.len(),
            start >= 1,
            suffix == extension_suffix(replacement, extension@),
            tail == s@.skip(s@.len() - suffix.len()),
            forall|k: int| 0 <= k <= i ==> tail[k] == suffix[k],
        decreases n - i,
    {
        if s[start + i] != extension[i] {
            assert(tail[i + 1] != suffix[i + 1]);
            return false;
        }
        i += 1;
    }
    assert(tail =~= suffix);
    true
}

/// The length of what the strip pass keeps of `s`.
pub fn stripped_len(s: &Vec<char>, replacement: char, extension: &Vec<char>) -> (n: usize)
    ensures
        n <= s@.len(),
        s@.take(n as int) == stripped(s@, replacement, extension@),
{
    if extension.len() > 0 && ends_with_extension(s, replacement, extension) {
        s.len() - extension.len() - 1
    } else {
        assert(s@.take(s@.len() as int) == s@);
        s.len()
    }
}

/// Where `s[..to]` starts once its leading replacement characters are gone.
fn trim_start_index(s: &Vec<char>, to: usize, replacement: char) -> (from: usize)
    requires
        to <= s@.len(),
    ensures
        from <= to,
        s@.subrange(from as int, to as int) == trimmed_start(s@.take(to as int), replacement),
{
    let mut from: usize = 0;
    assert(s@.subrange(0, to as int) == s@.take(to as int));
    while from < to && s[from] == replacement
        invariant
            from <= to <= s@.len(),
            trimmed_start(s@.subrange(from as int, to as int), replacement) == trimmed_start(
                s@.take(to as int),
                replacement,
            ),
        decreases to - from,
    {
        assert(s@.subrange(from as int, to as int).drop_first() == s@.subrange(
            from + 1,
            to as int,
        ));
        from += 1;
    }
    from
}

/// Where `s[from..to]` ends once its trailing replacement characters are gone.
fn trim_end_index(s: &Vec<char>, from: usize, to: usize, replacement: char) -> (end: usize)
    requires
        from <= to <= s@.len(),
    ensures
        from <= end <= to,
        s@.subrange(from as int, end as int) == trimmed_end(
            s@.subrange(from as int, to as int),
            replacement,
        ),
{
    let mut end: usize = to;
    while from < end && s[end - 1] == replacement
        invariant
            from <= end <= to <= s@.len(),
            trimmed_end(s@.subrange(from as int, end as int), replacement) == trimmed_end(
                s@.subrange(from as int, to as int),
                replacement,
            ),
        decreases end - from,
    {
        assert(s@.subrange(from as int, end as int).drop_last() == s@.subrange(
            from as int,
            end - 1,
        ));
        end -= 1;
    }
    end
}

/// Sanitizes one component: maps every character under `mode`, collapses runs
/// of `replacement`, removes one trailing `<replacement><extension>` where
/// `extension` is not empty, and trims `replacement` from both ends.
pub fn sanitize_component(
    name: &str,
    replacement: char,
    extension: &str,
    mode: SanitizeMode,
) -> (out: String)
    ensures
        out@ == sanitized(name@, replacement, extension@, mode),
        has_no_runs(out@, replacement),
        out@ == seq![replacement] || has_clean_edges(out@, replacement),
{
    proof {
        lemma_sanitized_shape(name@, replacement, extension@, mode);
    }
    let name_chars = to_chars(name);
    let extension_chars = to_chars(extension);
    let tmp = map_chars(&name_chars, replacement, mode);
    let squeezed = collapse(&tmp, replacement);
    let kept = stripped_len(&squeezed, replacement, &extension_chars);
    let from = trim_start_index(&squeezed, kept, replacement);
    let end = trim_end_index(&squeezed, from, kept, replacement);
    if from == end && kept > 0 {
        let mut out = String::new();
        out.push(replacement);
        assert(out@ == seq![replacement]);
        out
    } else {
        to_string(&squeezed, from, end)
    }
}

/// No two neighbours in `s` are both the replacement character.
pub open spec fn has_no_runs(s: Seq<char>, replacement: char) -> bool {
    forall|i: int| 0 < i < s.len() ==> !(s[i - 1] == replacement && #[trigger] s[i] == replacement)
}

/// `s` neither starts nor ends with the replacement character.
pub open spec fn has_clean_edges(s: Seq<char>, replacement: char) -> bool {
    s.len() > 0 ==> s.first() != replacement && s.last() != replacement
}

/// Every character of `s` is the replacement character.
pub open spec fn is_all_replacement(s: Seq<char>, replacement: char) -> bool {
    forall|i: int| 0 <= i < s.len() ==> s[i] == replacement
}

/// Every character of `s` is one that the mapping pass leaves as it is.
pub open spec fn is_stable(s: Seq<char>, replacement: char, mode: SanitizeMode) -> bool {
    forall|i: int| 0 <= i < s.len() ==> mapped_char(#[trigger] s[i], replacement, mode) == s[i]
}

/// A character that the mapping pass yields is mapped to itself, unless it is
/// the multiplication sign in the legacy mode, which can only be the
/// replacement character then.
pub proof fn lemma_mapped_char_is_stable(c: char, replacement: char, mode: SanitizeMode)
    ensures
        mapped_char(c, replacement, mode) == MULTIPLICATION_SIGN && mode == SanitizeMode::Legacy
            || mapped_char(mapped_char(c, replacement, mode), replacement, mode) == mapped_char(
            c,
            replacement,
            mode,
        ),
{
}

/// The collapse pass keeps the last character, leaves no run, and keeps only
/// characters of its input.
pub proof fn lemma_collapsed(s: Seq<char>, replacement: char)
    ensures
        collapsed(s, replacement).len() <= s.len(),
        s.len() > 0 ==> collapsed(s, replacement).len() > 0 && collapsed(s, replacement).last()
            == s.last(),
        has_no_runs(collapsed(s, replacement), replacement),
        forall|i: int|
            0 <= i < collapsed(s, replacement).len() ==> s.contains(
                #[trigger] collapsed(s, replacement)[i],
            ),
        forall|i: int| 0 <= i < s.len() ==> collapsed(s, replacement).contains(#[trigger] s[i]),
    decreases s.len(),
{
    if s.len() > 0 {
        let init = s.drop_last();
        lemma_collapsed(init, replacement);
        let c = collapsed(s, replacement);
        let ci = collapsed(init, replacement);
        assert forall|i: int| 0 <= i < c.len() implies s.contains(#[trigger] c[i]) by {
            if i < ci.len() {
                let j = choose|j: int| 0 <= j < init.len() && init[j] == c[i];
                assert(s[j] == c[i]);
            } else {
                assert(s[s.len() - 1] == c[i]);
            }
        }
        assert forall|i: int| 0 <= i < s.len() implies c.contains(#[trigger] s[i]) by {
            if i < init.len() {
                assert(ci.contains(init[i]));
                let j = choose|j: int| 0 <= j < ci.len() && ci[j] == init[i];
                assert(c[j] == s[i]);
            } else {
                assert(c[c.len() - 1] == s[i]);
            }
        }
    }
}

/// The collapse pass leaves alone what is appended to a name, where what is
/// appended has no run and does not start with the replacement character.
pub proof fn lemma_collapsed_append(s: Seq<char>, tail: Seq<char>, replacement: char)
    requires
        has_no_runs(tail, replacement),
        tail.len() > 0 ==> tail.first() != replacement,
    ensures
        collapsed(s + tail, replacement) == collapsed(s, replacement) + tail,
    decreases tail.len(),
{
    if tail.len() == 0 {
        assert(s + tail =~= s);
        assert(collapsed(s, replacement) + tail =~= collapsed(s, replacement));
    } else {
        let init = tail.drop_last();
        assert forall|i: int| 0 < i < init.len() implies !(init[i - 1] == replacement
            && #[trigger] init[i] == replacement) by {
            assert(init[i] == tail[i]);
        }
        lemma_collapsed_append(s, init, replacement);
        let whole = s + tail;
        assert(whole.drop_last() =~= s + init);
        assert(whole.last() == tail.last());
        if tail.len() >= 2 {
            assert(whole[whole.len() - 2] == tail[tail.len() - 2]);
            assert(!(tail[tail.len() - 2] == replacement && tail[tail.len() - 1] == replacement));
        }
        assert((collapsed(s, replacement) + init).push(tail.last()) =~= collapsed(s, replacement)
            + tail);
    }
}

/// A name without runs is left as it is by the collapse pass.
pub proof fn lemma_collapsed_without_runs(s: Seq<char>, replacement: char)
    requires
        has_no_runs(s, replacement),
    ensures
        collapsed(s, replacement) == s,
    decreases s.len(),
{
    if s.len() > 0 {
        let init = s.drop_last();
        assert forall|i: int| 0 < i < init.len() implies !(init[i - 1] == replacement
            && #[trigger] init[i] == replacement) by {
            assert(init[i] == s[i]);
        }
        lemma_collapsed_without_runs(init, replacement);
        if s.len() >= 2 {
            assert(!(s[s.len() - 2] == replacement && s[s.len() - 1] == replacement));
        }
        assert(init.push(s.last()) == s);
    }
}

/// Trimming the start drops exactly the leading replacement characters: the
/// result is `s.skip(k)` for the `k` returned.
pub proof fn lemma_trimmed_start(s: Seq<char>, replacement: char) -> (k: int)
    ensures
        0 <= k <= s.len(),
        trimmed_start(s, replacement) == s.skip(k),
        forall|i: int| 0 <= i < k ==> s[i] == replacement,
        k < s.len() ==> s[k] != replacement,
    decreases s.len(),
{
    if s.len() > 0 && s.first() == replacement {
        let rest = s.drop_first();
        let k = lemma_trimmed_start(rest, replacement);
        assert(rest.skip(k) == s.skip(k + 1));
        assert forall|i: int| 0 <= i < k + 1 implies s[i] == replacement by {
            if i > 0 {
                assert(s[i] == rest[i - 1]);
            }
        }
        if k + 1 < s.len() {
            assert(s[k + 1] == rest[k]);
        }
        k + 1
    } else {
        assert(s.skip(0) == s);
        0
    }
}

/// Trimming the end drops exactly the trailing replacement characters: the
/// result is `s.take(k)` for the `k` returned.
pub proof fn lemma_trimmed_end(s: Seq<char>, replacement: char) -> (k: int)
    ensures
        0 <= k <= s.len(),
        trimmed_end(s, replacement) == s.take(k),
        forall|i: int| k <= i < s.len() ==> s[i] == replacement,
        k > 0 ==> s[k - 1] != replacement,
    decreases s.len(),
{
    if s.len() > 0 && s.last() == replacement {
        let init = s.drop_last();
        let k = lemma_trimmed_end(init, replacement);
        assert(init.take(k) == s.take(k));
        assert forall|i: int| k <= i < s.len() implies s[i] == replacement by {
            if i < s.len() - 1 {
                assert(s[i] == init[i]);
            }
        }
        if k > 0 {
            assert(s[k - 1] == init[k - 1]);
        }
        k
    } else {
        assert(s.take(s.len() as int) == s);
        s.len() as int
    }
}

/// The trim pass yields a slice `s.subrange(from, to)` with clean edges, or
/// the single replacement character; the latter exactly when `s` is not empty
/// and holds nothing but replacement characters.
pub proof fn lemma_trimmed(s: Seq<char>, replacement: char) -> (bounds: (int, int))
    ensures
        0 <= bounds.0 <= bounds.1 <= s.len(),
        trimmed(s, replacement) == seq![replacement] <==> s.len() > 0 && is_all_replacement(
            s,
            replacement,
        ),
        trimmed(s, replacement) != seq![replacement] ==> trimmed(s, replacement) == s.subrange(
            bounds.0,
            bounds.1,
        ) && has_clean_edges(trimmed(s, replacement), replacement),
        trimmed(s, replacement).len() == 0 <==> s.len() == 0,
{
    let from = lemma_trimmed_start(s, replacement);
    let rest = s.skip(from);
    let to = lemma_trimmed_end(rest, replacement);
    let t = rest.take(to);
    assert(t == s.subrange(from, from + to));
    if t.len() == 0 {
        assert forall|i: int| 0 <= i < s.len() implies s[i] == replacement by {
            if i >= from {
                assert(s[i] == rest[i - from]);
            }
        }
    } else {
        assert(t.first() == s[from]);
        assert(t.last() == rest[to - 1]);
        assert(t.first() != replacement);
        if s.len() > 0 && is_all_replacement(s, replacement) {
            assert(s[from] == replacement);
        }
        if t == seq![replacement] {
            assert(t[0] == replacement);
        }
    }
    if s.len() > 0 && t.len() == 0 {
        assert(trimmed(s, replacement) == seq![replacement]);
        assert(seq![replacement].len() == 1);
    }
    (from, from + to)
}

/// A name with clean edges, or one that is the single replacement character,
/// is left as it is by the trim pass.
pub proof fn lemma_trimmed_of_clean(s: Seq<char>, replacement: char)
    requires
        s == seq![replacement] || has_clean_edges(s, replacement),
    ensures
        trimmed(s, replacement) == s,
{
    if s.len() > 0 && s.first() == replacement {
        assert(s == seq![replacement]);
        assert(s.drop_first().len() == 0);
        assert(trimmed_start(s.drop_first(), replacement) == s.drop_first());
    }
}

/// A slice of a name without runs has no runs.
pub proof fn lemma_subrange_without_runs(s: Seq<char>, replacement: char, from: int, to: int)
    requires
        0 <= from <= to <= s.len(),
        has_no_runs(s, replacement),
    ensures
        has_no_runs(s.subrange(from, to), replacement),
{
    let t = s.subrange(from, to);
    assert forall|i: int| 0 < i < t.len() implies !(t[i - 1] == replacement && #[trigger] t[i]
        == replacement) by {
        assert(t[i] == s[from + i]);
        assert(t[i - 1] == s[from + i - 1]);
    }
}

/// What holds of every sanitized name: it has no run of replacement
/// characters; it has clean edges unless it is the single replacement
/// character; and it is empty only where the name was used up, by being empty
/// or by losing all of it with the extension suffix.
pub proof fn lemma_sanitized_shape(
    name: Seq<char>,
    replacement: char,
    extension: Seq<char>,
    mode: SanitizeMode,
)
    ensures
        has_no_runs(sanitized(name, replacement, extension, mode), replacement),
        sanitized(name, replacement, extension, mode) == seq![replacement] || has_clean_edges(
            sanitized(name, replacement, extension, mode),
            replacement,
        ),
        sanitized(name, replacement, extension, mode) == seq![replacement] <==> stripped(
            collapsed(mapped(name, replacement, mode), replacement),
            replacement,
            extension,
        ) == seq![replacement],
        sanitized(name, replacement, extension, mode).len() == 0 <==> stripped(
            collapsed(mapped(name, replacement, mode), replacement),
            replacement,
            extension,
        ).len() == 0,
{
    let m = mapped(name, replacement, mode);
    let c = collapsed(m, replacement);
    let st = stripped(c, replacement, extension);
    lemma_collapsed(m, replacement);
    assert(st == c.subrange(0, st.len() as int));
    lemma_subrange_without_runs(c, replacement, 0, st.len() as int);
    let (from, to) = lemma_trimmed(st, replacement);
    let y = trimmed(st, replacement);
    if y == seq![replacement] {
        assert(y.len() == 1);
        if st.len() > 1 {
            assert(st[0] == replacement && st[1] == replacement);
        }
        assert(st =~= seq![replacement]);
    } else {
        lemma_subrange_without_runs(st, replacement, from, to);
        if st == seq![replacement] {
            assert(st.len() == 1);
            assert(st[0] == replacement);
        }
    }
}

/// The legacy mode leaves no multiplication sign in a name, unless the
/// multiplication sign is the replacement character.
pub proof fn lemma_legacy_leaves_no_multiplication_sign(
    name: Seq<char>,
    replacement: char,
    extension: Seq<char>,
)
    requires
        replacement != MULTIPLICATION_SIGN,
    ensures
        !sanitized(name, replacement, extension, SanitizeMode::Legacy).contains(
            MULTIPLICATION_SIGN,
        ),
{
    let mode = SanitizeMode::Legacy;
    let m = mapped(name, replacement, mode);
    let c = collapsed(m, replacement);
    let st = stripped(c, replacement, extension);
    let y = sanitized(name, replacement, extension, mode);
    lemma_collapsed(m, replacement);
    let (from, to) = lemma_trimmed(st, replacement);
    assert forall|i: int| 0 <= i < y.len() implies y[i] != MULTIPLICATION_SIGN by {
        if y != seq![replacement] {
            assert(y[i] == c[from + i]);
            let j = choose|j: int| 0 <= j < m.len() && m[j] == y[i];
        }
    }
}

/// The mapping pass leaves a sanitized name as it is, where, in the legacy
/// mode, the name holds no multiplication sign.
pub proof fn lemma_sanitized_is_stable(
    name: Seq<char>,
    replacement: char,
    extension: Seq<char>,
    mode: SanitizeMode,
)
    requires
        mode == SanitizeMode::Legacy ==> !sanitized(name, replacement, extension, mode).contains(
            MULTIPLICATION_SIGN,
        ),
    ensures
        is_stable(sanitized(name, replacement, extension, mode), replacement, mode),
        mapped(sanitized(name, replacement, extension, mode), replacement, mode) == sanitized(
            name,
            replacement,
            extension,
            mode,
        ),
{
    let m = mapped(name, replacement, mode);
    let c = collapsed(m, replacement);
    let st = stripped(c, replacement, extension);
    let y = sanitized(name, replacement, extension, mode);
    lemma_sanitized_shape(name, replacement, extension, mode);
    lemma_collapsed(m, replacement);
    let (from, to) = lemma_trimmed(st, replacement);
    assert forall|i: int| 0 <= i < y.len() implies mapped_char(#[trigger] y[i], replacement, mode)
        == y[i] by {
        let at = if y == seq![replacement] {
            0
        } else {
            from + i
        };
        assert(y[i] == c[at]);
        let j = choose|j: int| 0 <= j < m.len() && m[j] == y[i];
        lemma_mapped_char_is_stable(name[j], replacement, mode);
        assert(y.contains(y[i]));
    }
    assert(mapped(y, replacement, mode) =~= y);
}

/// Sanitizing a sanitized name again, under the same mode and replacement
/// character, yields the same name. This holds where the second pass strips no
/// extension suffix, as with an empty `next_extension`, and where, in the
/// legacy mode, the name holds no multiplication sign after the first pass: it
/// holds one only where the multiplication sign is the replacement character.
pub proof fn lemma_sanitized_idempotent(
    name: Seq<char>,
    replacement: char,
    extension: Seq<char>,
    next_extension: Seq<char>,
    mode: SanitizeMode,
)
    requires
        mode == SanitizeMode::Legacy ==> !sanitized(name, replacement, extension, mode).contains(
            MULTIPLICATION_SIGN,
        ),
        next_extension.len() == 0 || !extension_suffix(replacement, next_extension).is_suffix_of(
            sanitized(name, replacement, extension, mode),
        ),
    ensures
        sanitized(
            sanitized(name, replacement, extension, mode),
            replacement,
            next_extension,
            mode,
        ) == sanitized(name, replacement, extension, mode),
{
    let y = sanitized(name, replacement, extension, mode);
    lemma_sanitized_shape(name, replacement, extension, mode);
    lemma_sanitized_is_stable(name, replacement, extension, mode);
    lemma_collapsed_without_runs(y, replacement);
    lemma_trimmed_of_clean(y, replacement);
}

/// Nothing of the extension stays behind in the name. Where a name is
/// `stem.extension`, and the extension is one that the passes leave as it is,
/// the name sanitized with that extension is the sanitized stem. The one
/// exception is a stem of replaced characters only: nothing is left of it.
pub proof fn lemma_extension_leaves_no_trace(
    stem: Seq<char>,
    extension: Seq<char>,
    replacement: char,
    mode: SanitizeMode,
)
    requires
        extension.len() > 0,
        is_stable(extension, replacement, mode),
        has_no_runs(extension, replacement),
        extension.first() != replacement,
    ensures
        sanitized(stem + seq!['.'] + extension, replacement, extension, mode) == if is_all_replacement(
            mapped(stem, replacement, mode),
            replacement,
        ) {
            Seq::empty()
        } else {
            sanitized(stem, replacement, Seq::empty(), mode)
        },
{
    let name = stem + seq!['.'] + extension;
    let m = mapped(stem, replacement, mode);
    let cs = collapsed(m, replacement);
    let suffix = extension_suffix(replacement, extension);
    assert(mapped(name, replacement, mode) =~= m.push(replacement) + extension);
    lemma_collapsed_append(m.push(replacement), extension, replacement);
    lemma_collapsed(m, replacement);
    assert(m.push(replacement).drop_last() =~= m);
    let c = collapsed(mapped(name, replacement, mode), replacement);
    assert(c == collapsed(m.push(replacement), replacement) + extension);
    if m.len() > 0 && m.last() == replacement {
        // The replacement character for the `.` falls to the collapse pass.
        assert(c == cs + extension);
        assert(cs.last() == replacement);
        assert(c.skip(c.len() - suffix.len()) =~= suffix);
        let st = stripped(c, replacement, extension);
        assert(st =~= cs.drop_last());
        if is_all_replacement(m, replacement) {
            if cs.len() > 1 {
                assert(m.contains(cs[0]) && m.contains(cs[1]));
                assert(cs[0] == replacement && cs[1] == replacement);
            }
            assert(st.len() == 0);
        } else {
            let i = choose|i: int| 0 <= i < m.len() && m[i] != replacement;
            assert(cs.contains(m[i]));
            let from = lemma_trimmed_start(cs, replacement);
            let from_short = lemma_trimmed_start(st, replacement);
            assert(from < cs.len()) by {
                let j = choose|j: int| 0 <= j < cs.len() && cs[j] == m[i];
                assert(cs[j] != replacement);
            }
            assert(from < cs.len() - 1);
            assert(from_short == from) by {
                if from_short < from {
                    assert(st[from_short] == cs[from_short]);
                } else if from_short > from {
                    assert(st[from] == cs[from]);
                }
            }
            let rest = cs.skip(from);
            assert(rest.last() == replacement);
            assert(rest.drop_last() =~= st.skip(from));
            let end = lemma_trimmed_end(rest.drop_last(), replacement);
            assert(rest.drop_last()[0] == cs[from]);
            assert(end > 0);
        }
    } else {
        assert(c =~= cs.push(replacement) + extension);
        assert(c.skip(c.len() - suffix.len()) =~= suffix);
        assert(stripped(c, replacement, extension) =~= cs);
        if is_all_replacement(m, replacement) {
            assert(m.len() == 0);
        }
    }
}

} // verus!
