//! Names shown for processes: image-name heuristics, well-known friendly
//! names and the word splitting used for everything else.
use crate::text::{
    ascii_lower, ascii_lowercase_chars, opt_chars, char_is_whitespace, chars_of, is_ascii_lower_or_digit,
    is_ascii_upper, is_whitespace, string_from_chars, trim, trim_chars,
};
use vstd::prelude::*;

verus! {

broadcast use vstd::seq_lib::group_seq_properties;

/// Whether a name holds a path separator or a drive colon.
pub open spec fn path_like(v: Seq<char>) -> bool {
    v.contains('\\') || v.contains('/') || v.contains(':')
}

/// Whether `value` looks like a path rather than a bare image name.
pub fn looks_like_path(value: &str) -> (r: bool)
    ensures
        r == path_like(value@),
{
    let v = chars_of(value);
    let mut i: usize = 0;
    while i < v.len()
        invariant
            v@ == value@,
            i <= v@.len(),
            forall|j: int| 0 <= j < i ==> v@[j] != '\\' && v@[j] != '/' && v@[j] != ':',
        decreases v@.len() - i,
    {
        if v[i] == '\\' || v[i] == '/' || v[i] == ':' {
            assert(v@.contains(v@[i as int]));
            return true;
        }
        i = i + 1;
    }
    proof {
        if value@.contains('\\') {
            let j = choose|j: int| 0 <= j < value@.len() && value@[j] == '\\';
        }
        if value@.contains('/') {
            let j = choose|j: int| 0 <= j < value@.len() && value@[j] == '/';
        }
        if value@.contains(':') {
            let j = choose|j: int| 0 <= j < value@.len() && value@[j] == ':';
        }
    }
    false
}

/// Characters that separate the words of a process name.
pub open spec fn is_word_separator(c: char) -> bool {
    c == '_' || c == '-' || c == '.'
}

/// Whether the text ends with a space.
pub open spec fn ends_with_space(out: Seq<char>) -> bool {
    out.len() > 0 && out.last() == ' '
}

/// One character of the word split: separators become a single space (never
/// leading), and a capital letter that follows a lowercase letter or a digit
/// starts a new word. The flag records whether the last character was a
/// lowercase letter or a digit.
pub open spec fn split_step(acc: (Seq<char>, bool), c: char) -> (Seq<char>, bool) {
    let out = acc.0;
    let previous_lower = acc.1;
    if is_word_separator(c) {
        (if !ends_with_space(out) && out.len() > 0 { out.push(' ') } else { out }, false)
    } else {
        let spaced = if is_ascii_upper(c) && previous_lower && !ends_with_space(out) {
            out.push(' ')
        } else {
            out
        };
        (spaced.push(c), is_ascii_lower_or_digit(c))
    }
}

/// The word split of a whole name, character by character.
pub open spec fn split_words(s: Seq<char>) -> (Seq<char>, bool)
    decreases s.len(),
{
    if s.len() == 0 {
        (Seq::empty(), false)
    } else {
        split_step(split_words(s.drop_last()), s.last())
    }
}

/// One character of `split_whitespace().join(" ")`: runs of whitespace become
/// one space between words and vanish at both ends. The flag records a gap
/// seen after some word.
pub open spec fn collapse_step(acc: (Seq<char>, bool), c: char) -> (Seq<char>, bool) {
    let out = acc.0;
    let gap = acc.1;
    if is_whitespace(c) {
        (out, out.len() > 0)
    } else {
        ((if gap { out.push(' ') } else { out }).push(c), false)
    }
}

/// `split_whitespace().join(" ")` of the whole text.
pub open spec fn collapse_state(s: Seq<char>) -> (Seq<char>, bool)
    decreases s.len(),
{
    if s.len() == 0 {
        (Seq::empty(), false)
    } else {
        collapse_step(collapse_state(s.drop_last()), s.last())
    }
}

/// The words of `s` joined by single spaces.
pub open spec fn collapse_whitespace(s: Seq<char>) -> Seq<char> {
    collapse_state(s).0
}

/// Whether position `i` of `t` holds whitespace.
pub open spec fn whitespace_at(t: Seq<char>, i: int) -> bool {
    is_whitespace(t[i])
}

/// Whether `t` is words separated by single spaces: it neither starts nor
/// ends with whitespace, and its only whitespace is a plain space between two
/// characters that are not whitespace.
pub open spec fn single_spaced(t: Seq<char>) -> bool {
    &&& t.len() > 0 ==> !is_whitespace(t[0]) && !is_whitespace(t.last())
    &&& forall|i: int|
        0 <= i < t.len() && #[trigger] whitespace_at(t, i) ==> t[i] == ' ' && 0 < i < t.len() - 1
            && !is_whitespace(t[i - 1]) && !is_whitespace(t[i + 1])
}

proof fn lemma_collapse_state_single_spaced(s: Seq<char>)
    ensures
        single_spaced(collapse_state(s).0),
        collapse_state(s).1 ==> collapse_state(s).0.len() > 0,
    decreases s.len(),
{
    if s.len() > 0 {
        lemma_collapse_state_single_spaced(s.drop_last());
        let (out, gap) = collapse_state(s.drop_last());
        let c = s.last();
        if !is_whitespace(c) {
            let spaced = if gap { out.push(' ') } else { out };
            let t = spaced.push(c);
            assert(collapse_state(s).0 == t);
            assert forall|i: int| 0 <= i < t.len() && #[trigger] whitespace_at(t, i) implies t[i] == ' ' && 0 < i
                < t.len() - 1 && !is_whitespace(t[i - 1]) && !is_whitespace(t[i + 1]) by {
                if i < out.len() {
                    assert(t[i] == out[i]);
                    assert(whitespace_at(out, i));
                    assert(t[i + 1] == out[i + 1]);
                    assert(t[i - 1] == out[i - 1]);
                } else if gap && i == out.len() {
                    assert(t[i - 1] == out.last());
                    assert(t[i + 1] == c);
                } else {
                    assert(t[i] == c);
                }
            }
            if t.len() > 1 {
                if out.len() > 0 {
                    assert(t[0] == out[0]);
                }
            }
        }
    }
}

/// What `split_whitespace().join(" ")` gives is words separated by single
/// spaces, with no whitespace at either end, whatever the text.
pub proof fn lemma_collapse_single_spaced(s: Seq<char>)
    ensures
        single_spaced(collapse_whitespace(s)),
{
    lemma_collapse_state_single_spaced(s);
}

proof fn lemma_collapse_prefix(t: Seq<char>, k: int)
    requires
        single_spaced(t),
        0 <= k <= t.len(),
    ensures
        collapse_state(t.take(k)) == if k > 0 && is_whitespace(t[k - 1]) {
            (t.take(k - 1), true)
        } else {
            (t.take(k), false)
        },
    decreases k,
{
    if k > 0 {
        lemma_collapse_prefix(t, k - 1);
        assert(t.take(k).drop_last() =~= t.take(k - 1));
        assert(t.take(k).last() == t[k - 1]);
        if is_whitespace(t[k - 1]) {
            assert(whitespace_at(t, k - 1));
        } else if k - 1 > 0 && is_whitespace(t[k - 2]) {
            assert(whitespace_at(t, k - 2));
            assert(t.take(k - 2).push(' ').push(t[k - 1]) =~= t.take(k));
        } else {
            assert(t.take(k - 1).push(t[k - 1]) =~= t.take(k));
        }
    } else {
        assert(t.take(0) =~= Seq::<char>::empty());
    }
}

/// Collapsing whitespace a second time changes nothing: single-spaced text
/// is left as it is.
pub proof fn lemma_collapse_idempotent(s: Seq<char>)
    ensures
        collapse_whitespace(collapse_whitespace(s)) == collapse_whitespace(s),
{
    let t = collapse_whitespace(s);
    lemma_collapse_single_spaced(s);
    lemma_collapse_prefix(t, t.len() as int);
    assert(t.take(t.len() as int) =~= t);
}

/// A character that belongs to a word: neither whitespace nor a separator.
pub open spec fn is_word_char(c: char) -> bool {
    !is_whitespace(c) && !is_word_separator(c)
}

/// The word characters of `s`, in order.
pub open spec fn word_chars(s: Seq<char>) -> Seq<char> {
    s.filter(|c: char| is_word_char(c))
}

/// Whether `s` holds no separator.
pub open spec fn no_separator(s: Seq<char>) -> bool {
    forall|i: int| 0 <= i < s.len() ==> !is_word_separator(#[trigger] s[i])
}

proof fn lemma_filter_step(s: Seq<char>)
    requires
        s.len() > 0,
    ensures
        word_chars(s) == if is_word_char(s.last()) {
            word_chars(s.drop_last()).push(s.last())
        } else {
            word_chars(s.drop_last())
        },
{
    s.drop_last().lemma_filter_push(s.last(), |c: char| is_word_char(c));
    assert(s.drop_last().push(s.last()) =~= s);
}

proof fn lemma_word_chars_push(s: Seq<char>, c: char)
    ensures
        word_chars(s.push(c)) == if is_word_char(c) { word_chars(s).push(c) } else { word_chars(s) },
{
    s.lemma_filter_push(c, |c: char| is_word_char(c));
}

proof fn lemma_split_words_keeps_words(s: Seq<char>)
    ensures
        word_chars(split_words(s).0) == word_chars(s),
        no_separator(split_words(s).0),
    decreases s.len(),
{
    if s.len() == 0 {
        assert(word_chars(s) =~= Seq::<char>::empty());
        assert(word_chars(split_words(s).0) =~= Seq::<char>::empty());
    } else {
        lemma_split_words_keeps_words(s.drop_last());
        lemma_filter_step(s);
        let (out, previous_lower) = split_words(s.drop_last());
        let c = s.last();
        lemma_word_chars_push(out, ' ');
        if is_word_separator(c) {
            assert(!is_word_char(c));
        } else {
            let spaced = if is_ascii_upper(c) && previous_lower && !ends_with_space(out) { out.push(' ') } else { out };
            assert(word_chars(spaced) == word_chars(out));
            assert(no_separator(spaced));
            lemma_word_chars_push(spaced, c);
            assert(split_words(s).0 == spaced.push(c));
            assert(no_separator(spaced.push(c)));
        }
    }
}

proof fn lemma_collapse_keeps_words(s: Seq<char>)
    ensures
        word_chars(collapse_state(s).0) == word_chars(s),
        no_separator(s) ==> no_separator(collapse_state(s).0),
    decreases s.len(),
{
    if s.len() == 0 {
        assert(word_chars(s) =~= Seq::<char>::empty());
        assert(word_chars(collapse_state(s).0) =~= Seq::<char>::empty());
    } else {
        lemma_collapse_keeps_words(s.drop_last());
        lemma_filter_step(s);
        let (out, gap) = collapse_state(s.drop_last());
        let c = s.last();
        if no_separator(s) {
            assert(!is_word_separator(s[s.len() - 1]));
            assert forall|i: int| 0 <= i < s.drop_last().len() implies !is_word_separator(#[trigger] s.drop_last()[i]) by {
                assert(s.drop_last()[i] == s[i]);
            }
        }
        if !is_whitespace(c) {
            let spaced = if gap { out.push(' ') } else { out };
            lemma_word_chars_push(out, ' ');
            assert(word_chars(spaced) == word_chars(out));
            lemma_word_chars_push(spaced, c);
            assert(collapse_state(s).0 == spaced.push(c));
        } else {
            assert(!is_word_char(c));
        }
    }
}

/// Humanizing keeps the words of a name: unless the name comes back
/// unchanged, the result is single-spaced, holds no separator, and its word
/// characters are exactly those of the name, in order.
pub proof fn lemma_humanized_words(name: Seq<char>)
    ensures
        humanized(name) == name || {
            &&& single_spaced(humanized(name))
            &&& no_separator(humanized(name))
            &&& word_chars(humanized(name)) == word_chars(name)
        },
{
    lemma_split_words_keeps_words(name);
    lemma_collapse_keeps_words(split_words(name).0);
    lemma_collapse_single_spaced(split_words(name).0);
}

/// Whether position `k` of `h` holds a plain space.
pub open spec fn space_at(h: Seq<char>, k: int) -> bool {
    h[k] == ' '
}

/// Whether position `k` of `h` holds an ASCII capital right after an ASCII
/// lowercase letter or digit.
pub open spec fn capital_after_lower(h: Seq<char>, k: int) -> bool {
    is_ascii_lower_or_digit(h[k - 1]) && is_ascii_upper(h[k])
}

proof fn lemma_word_chars_all(s: Seq<char>)
    requires
        forall|i: int| 0 <= i < s.len() ==> is_word_char(#[trigger] s[i]),
    ensures
        word_chars(s) == s,
    decreases s.len(),
{
    if s.len() == 0 {
        assert(word_chars(s) =~= s);
    } else {
        assert forall|i: int| 0 <= i < s.drop_last().len() implies is_word_char(#[trigger] s.drop_last()[i]) by {
            assert(s.drop_last()[i] == s[i]);
        }
        lemma_word_chars_all(s.drop_last());
        lemma_filter_step(s);
        assert(is_word_char(s[s.len() - 1]));
        assert(s.drop_last().push(s.last()) =~= s);
    }
}

proof fn lemma_split_plain(s: Seq<char>)
    requires
        forall|i: int| 0 <= i < s.len() ==> is_word_char(#[trigger] s[i]),
    ensures
        (s.len() == 0) == (split_words(s).0.len() == 0),
        split_words(s).1 == (split_words(s).0.len() > 0 && is_ascii_lower_or_digit(split_words(s).0.last())),
        split_words(s).0.len() > 0 ==> is_word_char(split_words(s).0.last()) && is_word_char(split_words(s).0[0]),
        forall|k: int|
            0 <= k < split_words(s).0.len() && #[trigger] whitespace_at(split_words(s).0, k) ==> split_words(s).0[k] == ' '
                && 0 < k < split_words(s).0.len() - 1 && is_ascii_lower_or_digit(split_words(s).0[k - 1])
                && is_ascii_upper(split_words(s).0[k + 1]),
        forall|k: int| 0 < k < split_words(s).0.len() ==> !#[trigger] capital_after_lower(split_words(s).0, k),
        (forall|i: int| 0 <= i < s.len() ==> !is_ascii_upper(#[trigger] s[i])) ==> split_words(s).0 == s,
    decreases s.len(),
{
    if s.len() > 0 {
        let p = s.drop_last();
        assert forall|i: int| 0 <= i < p.len() implies is_word_char(#[trigger] p[i]) by {
            assert(p[i] == s[i]);
        }
        lemma_split_plain(p);
        let (out, prev) = split_words(p);
        let c = s.last();
        assert(is_word_char(s[s.len() - 1]));
        assert(!is_word_separator(c));
        let spaced = if is_ascii_upper(c) && prev && !ends_with_space(out) { out.push(' ') } else { out };
        let t = spaced.push(c);
        assert(split_words(s) == (t, is_ascii_lower_or_digit(c)));
        if out.len() > 0 {
            assert(!ends_with_space(out));
        }
        assert forall|k: int| 0 <= k < t.len() && #[trigger] whitespace_at(t, k) implies t[k] == ' ' && 0 < k < t.len() - 1
            && is_ascii_lower_or_digit(t[k - 1]) && is_ascii_upper(t[k + 1]) by {
            if k < out.len() {
                assert(t[k] == out[k]);
                assert(whitespace_at(out, k));
                assert(t[k - 1] == out[k - 1]);
                assert(t[k + 1] == out[k + 1]);
            } else if k == t.len() - 1 {
                assert(t[k] == c);
            } else {
                assert(spaced.len() == out.len() + 1);
                assert(t[k - 1] == out.last());
                assert(t[k + 1] == c);
            }
        }
        assert forall|k: int| 0 < k < t.len() implies !#[trigger] capital_after_lower(t, k) by {
            if k < out.len() {
                assert(t[k] == out[k]);
                assert(t[k - 1] == out[k - 1]);
                assert(!capital_after_lower(out, k));
            } else if spaced.len() == out.len() + 1 {
                if k == out.len() {
                    assert(t[k] == ' ');
                } else {
                    assert(t[k - 1] == ' ');
                }
            } else {
                assert(k == out.len());
                assert(t[k - 1] == out.last());
                assert(t[k] == c);
            }
        }
        if out.len() > 0 {
            assert(t[0] == out[0]);
        }
        if forall|i: int| 0 <= i < s.len() ==> !is_ascii_upper(#[trigger] s[i]) {
            assert forall|i: int| 0 <= i < p.len() implies !is_ascii_upper(#[trigger] p[i]) by {
                assert(p[i] == s[i]);
            }
            assert(!is_ascii_upper(s[s.len() - 1]));
            assert(p.push(c) =~= s);
        }
    }
}

/// Within a name made of word characters only (no separator, no
/// whitespace), humanizing inserts a space exactly where an ASCII capital
/// follows an ASCII lowercase letter or digit, and nowhere else: removing the
/// spaces gives the name back, every space stands between a lowercase letter
/// or digit and a capital, and no capital follows a lowercase letter or digit
/// directly. So a name without ASCII capitals comes back unchanged.
pub proof fn lemma_humanized_spacing(name: Seq<char>)
    requires
        forall|i: int| 0 <= i < name.len() ==> is_word_char(#[trigger] name[i]),
    ensures
        word_chars(humanized(name)) == name,
        forall|k: int|
            0 <= k < humanized(name).len() && #[trigger] space_at(humanized(name), k) ==> 0 < k < humanized(name).len() - 1
                && is_ascii_lower_or_digit(humanized(name)[k - 1]) && is_ascii_upper(humanized(name)[k + 1]),
        forall|k: int| 0 < k < humanized(name).len() ==> !#[trigger] capital_after_lower(humanized(name), k),
        (forall|i: int| 0 <= i < name.len() ==> !is_ascii_upper(#[trigger] name[i])) ==> humanized(name) == name,
{
    lemma_split_plain(name);
    lemma_word_chars_all(name);
    lemma_split_words_keeps_words(name);
    let out = split_words(name).0;
    assert(single_spaced(out)) by {
        assert forall|i: int| 0 <= i < out.len() && #[trigger] whitespace_at(out, i) implies out[i] == ' ' && 0 < i < out.len()
            - 1 && !is_whitespace(out[i - 1]) && !is_whitespace(out[i + 1]) by {
            assert(is_ascii_lower_or_digit(out[i - 1]));
            assert(is_ascii_upper(out[i + 1]));
        }
    }
    lemma_collapse_prefix(out, out.len() as int);
    assert(out.take(out.len() as int) =~= out);
    assert(collapse_whitespace(out) == out);
    let h = humanized(name);
    if name.len() == 0 {
        assert(h == name);
        assert(word_chars(h) =~= name);
    } else {
        assert(h == out);
        assert forall|k: int| 0 <= k < h.len() && #[trigger] space_at(h, k) implies 0 < k < h.len() - 1
            && is_ascii_lower_or_digit(h[k - 1]) && is_ascii_upper(h[k + 1]) by {
            assert(whitespace_at(out, k));
        }
    }
}

/// Whether position `k` of `h` is a space between an ASCII lowercase letter or
/// digit and an ASCII capital.
pub open spec fn camel_space(h: Seq<char>, k: int) -> bool {
    0 < k < h.len() - 1 && is_ascii_lower_or_digit(h[k - 1]) && is_ascii_upper(h[k + 1])
}

/// Whether the name has a separator or whitespace right after its first `m`
/// word characters (before the next one).
pub open spec fn break_after(name: Seq<char>, m: int) -> bool {
    exists|j: int| 0 <= j < name.len() && #[trigger] word_chars(name.take(j)).len() == m && !is_word_char(name[j])
}

proof fn lemma_break_extend(p: Seq<char>, c: char, m: int)
    requires
        break_after(p, m),
    ensures
        break_after(p.push(c), m),
{
    let j = choose|j: int| 0 <= j < p.len() && #[trigger] word_chars(p.take(j)).len() == m && !is_word_char(p[j]);
    assert(p.push(c).take(j) =~= p.take(j));
    assert(p.push(c)[j] == p[j]);
    assert(word_chars(p.push(c).take(j)).len() == m);
}

proof fn lemma_break_at_end(p: Seq<char>, c: char)
    requires
        !is_word_char(c),
    ensures
        break_after(p.push(c), word_chars(p).len() as int),
{
    let s = p.push(c);
    assert(s.take(p.len() as int) =~= p);
    assert(s[p.len() as int] == c);
    assert(word_chars(s.take(p.len() as int)).len() == word_chars(p).len());
}

proof fn lemma_split_spaces(s: Seq<char>)
    ensures
        split_words(s).1 ==> split_words(s).0.len() > 0 && is_ascii_lower_or_digit(split_words(s).0.last()),
        forall|k: int|
            0 <= k < split_words(s).0.len() && #[trigger] whitespace_at(split_words(s).0, k) ==> camel_space(
                split_words(s).0,
                k,
            ) || break_after(s, word_chars(split_words(s).0.take(k)).len() as int),
    decreases s.len(),
{
    if s.len() > 0 {
        let p = s.drop_last();
        let c = s.last();
        assert(p.push(c) =~= s);
        lemma_split_spaces(p);
        lemma_split_words_keeps_words(p);
        let (out, prev) = split_words(p);
        let t = split_words(s).0;
        assert forall|k: int| 0 <= k < t.len() && #[trigger] whitespace_at(t, k) implies camel_space(t, k) || break_after(
            s,
            word_chars(t.take(k)).len() as int,
        ) by {
            if k < out.len() {
                assert(t.take(k) =~= out.take(k)) by {
                    assert forall|i: int| 0 <= i < k implies t[i] == out[i] by {}
                }
                assert(t[k] == out[k]);
                assert(whitespace_at(out, k));
                if camel_space(out, k) {
                    assert(t[k - 1] == out[k - 1]);
                    assert(t[k + 1] == out[k + 1]);
                } else {
                    lemma_break_extend(p, c, word_chars(out.take(k)).len() as int);
                }
            } else {
                lemma_word_chars_push(out, ' ');
                if is_word_separator(c) {
                    assert(t == out.push(' '));
                    assert(t.take(k) =~= out);
                    lemma_break_at_end(p, c);
                } else {
                    let spaced = if is_ascii_upper(c) && prev && !ends_with_space(out) { out.push(' ') } else { out };
                    assert(t == spaced.push(c));
                    if k == spaced.len() {
                        assert(t[k] == c);
                        assert(t.take(k) =~= spaced);
                        assert(word_chars(spaced) == word_chars(out));
                        lemma_break_at_end(p, c);
                    } else {
                        assert(k == out.len() && spaced.len() == out.len() + 1);
                        assert(t[k - 1] == out.last());
                        assert(t[k + 1] == c);
                        assert(camel_space(t, k));
                    }
                }
            }
        }
    }
}

proof fn lemma_collapse_spaces(t: Seq<char>)
    ensures
        collapse_state(t).1 ==> t.len() >= 2 && is_whitespace(t.last()) && collapse_state(t).0.len() > 0,
        collapse_state(t).1 && !is_whitespace(t[t.len() - 2]) ==> collapse_state(t).0.last() == t[t.len() - 2],
        !collapse_state(t).1 && collapse_state(t).0.len() > 0 ==> t.len() > 0 && collapse_state(t).0.last() == t.last(),
        forall|k: int|
            0 <= k < collapse_state(t).0.len() && #[trigger] space_at(collapse_state(t).0, k) ==> 0 < k && k + 1
                < collapse_state(t).0.len() && exists|p: int|
                0 < p && p + 1 < t.len() && whitespace_at(t, p) && #[trigger] word_chars(t.take(p)).len() == word_chars(
                    collapse_state(t).0.take(k),
                ).len() && collapse_state(t).0[k + 1] == t[p + 1] && (!is_whitespace(t[p - 1])
                    ==> collapse_state(t).0[k - 1] == t[p - 1]),
    decreases t.len(),
{
    if t.len() > 0 {
        let q = t.drop_last();
        let c = t.last();
        assert(q.push(c) =~= t);
        lemma_collapse_spaces(q);
        lemma_collapse_keeps_words(q);
        let (o, gap) = collapse_state(q);
        let o2 = collapse_state(t).0;
        if is_whitespace(c) {
            assert(o2 == o);
            if gap {
                assert(t[t.len() - 2] == q.last());
            } else if o.len() > 0 {
                assert(t[t.len() - 2] == q.last());
            }
            assert forall|k: int| 0 <= k < o2.len() && #[trigger] space_at(o2, k) implies 0 < k && k + 1 < o2.len() && exists|p: int|
                0 < p && p + 1 < t.len() && whitespace_at(t, p) && #[trigger] word_chars(t.take(p)).len() == word_chars(
                    o2.take(k),
                ).len() && o2[k + 1] == t[p + 1] && (!is_whitespace(t[p - 1]) ==> o2[k - 1] == t[p - 1]) by {
                let p = choose|p: int|
                    0 < p && p + 1 < q.len() && whitespace_at(q, p) && #[trigger] word_chars(q.take(p)).len() == word_chars(
                        o.take(k),
                    ).len() && o[k + 1] == q[p + 1] && (!is_whitespace(q[p - 1]) ==> o[k - 1] == q[p - 1]);
                assert(t.take(p) =~= q.take(p));
                assert(t[p] == q[p] && t[p + 1] == q[p + 1] && t[p - 1] == q[p - 1]);
                assert(whitespace_at(t, p));
            }
        } else {
            let spaced = if gap { o.push(' ') } else { o };
            assert(o2 == spaced.push(c));
            assert forall|k: int| 0 <= k < o2.len() && #[trigger] space_at(o2, k) implies 0 < k && k + 1 < o2.len() && exists|p: int|
                0 < p && p + 1 < t.len() && whitespace_at(t, p) && #[trigger] word_chars(t.take(p)).len() == word_chars(
                    o2.take(k),
                ).len() && o2[k + 1] == t[p + 1] && (!is_whitespace(t[p - 1]) ==> o2[k - 1] == t[p - 1]) by {
                if k < o.len() {
                    assert(o2[k] == o[k]);
                    assert(space_at(o, k));
                    let p = choose|p: int|
                        0 < p && p + 1 < q.len() && whitespace_at(q, p) && #[trigger] word_chars(q.take(p)).len() == word_chars(
                            o.take(k),
                        ).len() && o[k + 1] == q[p + 1] && (!is_whitespace(q[p - 1]) ==> o[k - 1] == q[p - 1]);
                    assert(t.take(p) =~= q.take(p));
                    assert(o2.take(k) =~= o.take(k));
                    assert(t[p] == q[p] && t[p + 1] == q[p + 1] && t[p - 1] == q[p - 1]);
                    assert(o2[k + 1] == o[k + 1] && o2[k - 1] == o[k - 1]);
                    assert(whitespace_at(t, p));
                    assert(word_chars(t.take(p)).len() == word_chars(o2.take(k)).len());
                } else if k == o2.len() - 1 {
                    assert(o2[k] == c);
                } else {
                    assert(gap && k == o.len());
                    let p = q.len() - 1;
                    assert(t.take(p) =~= q.drop_last());
                    lemma_filter_step(q);
                    assert(!is_word_char(q.last()));
                    assert(o2.take(k) =~= o);
                    assert(whitespace_at(t, p));
                    assert(t[p + 1] == c);
                    assert(o2[k + 1] == c);
                    assert(t[p - 1] == q[q.len() - 2]);
                    assert(o2[k - 1] == o.last());
                    assert(word_chars(t.take(p)).len() == word_chars(o2.take(k)).len());
                }
            }
        }
    }
}

/// Every space in a humanized name is either a space between an ASCII
/// lowercase letter or digit and an ASCII capital, or stands where the name
/// has a separator or whitespace between the same word characters: no other
/// break is ever introduced.
pub proof fn lemma_humanized_breaks(name: Seq<char>)
    ensures
        forall|k: int|
            0 <= k < humanized(name).len() && #[trigger] space_at(humanized(name), k) ==> camel_space(humanized(name), k)
                || break_after(name, word_chars(humanized(name).take(k)).len() as int),
{
    let out = split_words(name).0;
    lemma_split_spaces(name);
    lemma_collapse_spaces(out);
    let h = humanized(name);
    if collapse_whitespace(out).len() == 0 {
        assert(h == name);
        assert forall|k: int| 0 <= k < h.len() && #[trigger] space_at(h, k) implies camel_space(h, k) || break_after(
            name,
            word_chars(h.take(k)).len() as int,
        ) by {
            assert(!is_word_char(name[k]));
            assert(word_chars(name.take(k)).len() == word_chars(h.take(k)).len());
        }
    } else {
        assert(h == collapse_state(out).0);
        assert forall|k: int| 0 <= k < h.len() && #[trigger] space_at(h, k) implies camel_space(h, k) || break_after(
            name,
            word_chars(h.take(k)).len() as int,
        ) by {
            let p = choose|p: int|
                0 < p && p + 1 < out.len() && whitespace_at(out, p) && #[trigger] word_chars(out.take(p)).len() == word_chars(
                    h.take(k),
                ).len() && h[k + 1] == out[p + 1] && (!is_whitespace(out[p - 1]) ==> h[k - 1] == out[p - 1]);
            if camel_space(out, p) {
                assert(h[k - 1] == out[p - 1]);
                assert(camel_space(h, k));
            }
        }
    }
}

/// A humanized process name is either single-spaced words or, when no word is
/// left, the name unchanged.
pub proof fn lemma_humanized_single_spaced(name: Seq<char>)
    ensures
        single_spaced(humanized(name)) || humanized(name) == name,
{
    lemma_collapse_single_spaced(split_words(name).0);
}

/// A process name made readable: words split at separators and at
/// lowercase-to-capital steps, joined by single spaces; the name itself when
/// nothing is left.
pub open spec fn humanized(name: Seq<char>) -> Seq<char> {
    let words = collapse_whitespace(split_words(name).0);
    if words.len() == 0 {
        name
    } else {
        words
    }
}

/// The friendly names of well-known programs, by lowercase image stem.
pub open spec fn known_program_name(stem: Seq<char>) -> Option<Seq<char>> {
    if stem == "msedge"@ {
        Some("Microsoft Edge"@)
    } else if stem == "chrome"@ {
        Some("Google Chrome"@)
    } else if stem == "code"@ {
        Some("Visual Studio Code"@)
    } else if stem == "wechat"@ {
        Some("WeChat"@)
    } else if stem == "qq"@ {
        Some("QQ"@)
    } else if stem == "explorer"@ {
        Some("Windows Explorer"@)
    } else if stem == "powershell"@ {
        Some("Windows PowerShell"@)
    } else if stem == "pwsh"@ {
        Some("PowerShell"@)
    } else if stem == "cmd"@ {
        Some("Command Prompt"@)
    } else if stem == "spotify"@ {
        Some("Spotify"@)
    } else {
        None
    }
}

/// The name shown for an image stem when the system offers none: the friendly
/// name of a well-known program (matched trimmed and ASCII-lowercased), else
/// the humanized stem.
pub open spec fn friendly_name(name: Seq<char>) -> Seq<char> {
    match known_program_name(trim(name).map_values(|c: char| ascii_lower(c))) {
        Some(known) => known,
        None => humanized(name),
    }
}

/// A name trimmed and ASCII-lowercased, the form matched against the
/// well-known programs.
pub open spec fn normalized_name(name: Seq<char>) -> Seq<char> {
    trim(name).map_values(|c: char| ascii_lower(c))
}

/// The friendly name of a program is its humanized name unless its
/// normalized name is exactly the stem of one of the ten well-known programs,
/// and each of those stems gives that program's name.
pub proof fn lemma_friendly_name_exact(name: Seq<char>)
    ensures
        friendly_name(name) == humanized(name)
            || normalized_name(name) == "msedge"@
            || normalized_name(name) == "chrome"@
            || normalized_name(name) == "code"@
            || normalized_name(name) == "wechat"@
            || normalized_name(name) == "qq"@
            || normalized_name(name) == "explorer"@
            || normalized_name(name) == "powershell"@
            || normalized_name(name) == "pwsh"@
            || normalized_name(name) == "cmd"@
            || normalized_name(name) == "spotify"@,
        normalized_name(name) == "msedge"@ ==> friendly_name(name) == "Microsoft Edge"@,
        normalized_name(name) == "chrome"@ ==> friendly_name(name) == "Google Chrome"@,
        normalized_name(name) == "code"@ ==> friendly_name(name) == "Visual Studio Code"@,
        normalized_name(name) == "wechat"@ ==> friendly_name(name) == "WeChat"@,
        normalized_name(name) == "qq"@ ==> friendly_name(name) == "QQ"@,
        normalized_name(name) == "explorer"@ ==> friendly_name(name) == "Windows Explorer"@,
        normalized_name(name) == "powershell"@ ==> friendly_name(name) == "Windows PowerShell"@,
        normalized_name(name) == "pwsh"@ ==> friendly_name(name) == "PowerShell"@,
        normalized_name(name) == "cmd"@ ==> friendly_name(name) == "Command Prompt"@,
        normalized_name(name) == "spotify"@ ==> friendly_name(name) == "Spotify"@,
{
    reveal_strlit("msedge");
    reveal_strlit("chrome");
    reveal_strlit("code");
    reveal_strlit("wechat");
    reveal_strlit("qq");
    reveal_strlit("explorer");
    reveal_strlit("powershell");
    reveal_strlit("pwsh");
    reveal_strlit("cmd");
    reveal_strlit("spotify");
    assert("msedge"@[0] != "chrome"@[0]);
    assert("msedge"@.len() != "code"@.len());
    assert("msedge"@[0] != "wechat"@[0]);
    assert("msedge"@.len() != "qq"@.len());
    assert("msedge"@.len() != "explorer"@.len());
    assert("msedge"@.len() != "powershell"@.len());
    assert("msedge"@.len() != "pwsh"@.len());
    assert("msedge"@.len() != "cmd"@.len());
    assert("msedge"@.len() != "spotify"@.len());
    assert("chrome"@.len() != "code"@.len());
    assert("chrome"@[0] != "wechat"@[0]);
    assert("chrome"@.len() != "qq"@.len());
    assert("chrome"@.len() != "explorer"@.len());
    assert("chrome"@.len() != "powershell"@.len());
    assert("chrome"@.len() != "pwsh"@.len());
    assert("chrome"@.len() != "cmd"@.len());
    assert("chrome"@.len() != "spotify"@.len());
    assert("code"@.len() != "wechat"@.len());
    assert("code"@.len() != "qq"@.len());
    assert("code"@.len() != "explorer"@.len());
    assert("code"@.len() != "powershell"@.len());
    assert("code"@[0] != "pwsh"@[0]);
    assert("code"@.len() != "cmd"@.len());
    assert("code"@.len() != "spotify"@.len());
    assert("wechat"@.len() != "qq"@.len());
    assert("wechat"@.len() != "explorer"@.len());
    assert("wechat"@.len() != "powershell"@.len());
    assert("wechat"@.len() != "pwsh"@.len());
    assert("wechat"@.len() != "cmd"@.len());
    assert("wechat"@.len() != "spotify"@.len());
    assert("qq"@.len() != "explorer"@.len());
    assert("qq"@.len() != "powershell"@.len());
    assert("qq"@.len() != "pwsh"@.len());
    assert("qq"@.len() != "cmd"@.len());
    assert("qq"@.len() != "spotify"@.len());
    assert("explorer"@.len() != "powershell"@.len());
    assert("explorer"@.len() != "pwsh"@.len());
    assert("explorer"@.len() != "cmd"@.len());
    assert("explorer"@.len() != "spotify"@.len());
    assert("powershell"@.len() != "pwsh"@.len());
    assert("powershell"@.len() != "cmd"@.len());
    assert("powershell"@.len() != "spotify"@.len());
    assert("pwsh"@.len() != "cmd"@.len());
    assert("pwsh"@.len() != "spotify"@.len());
    assert("cmd"@.len() != "spotify"@.len());
}

/// Splits a process name into words, such as `MyApp_helper` into `My App helper`.
pub fn humanize_process_name(name: &str) -> (r: String)
    ensures
        r@ == humanized(name@),
{
    let v = chars_of(name);
    let mut out: Vec<char> = Vec::new();
    let mut previous_lower = false;
    let mut i: usize = 0;
    while i < v.len()
        invariant
            v@ == name@,
            i <= v@.len(),
            (out@, previous_lower) == split_words(v@.take(i as int)),
        decreases v@.len() - i,
    {
        let c = v[i];
        proof {
            assert(v@.take(i + 1).drop_last() =~= v@.take(i as int));
        }
        let ends_with_space = out.len() > 0 && out[out.len() - 1] == ' ';
        if c == '_' || c == '-' || c == '.' {
            if !ends_with_space && out.len() > 0 {
                out.push(' ');
            }
            previous_lower = false;
        } else {
            let is_upper = 'A' <= c && c <= 'Z';
            if is_upper && previous_lower && !ends_with_space {
                out.push(' ');
            }
            out.push(c);
            previous_lower = ('a' <= c && c <= 'z') || ('0' <= c && c <= '9');
        }
        i = i + 1;
    }
    proof {
        assert(v@.take(i as int) =~= v@);
    }
    let words = collapse_whitespace_chars(&out);
    if words.len() == 0 {
        String::from_str(name)
    } else {
        string_from_chars(&words)
    }
}

/// `split_whitespace().join(" ")` on a character vector.
pub fn collapse_whitespace_chars(v: &[char]) -> (r: Vec<char>)
    ensures
        r@ == collapse_whitespace(v@),
{
    let mut out: Vec<char> = Vec::new();
    let mut gap = false;
    let mut i: usize = 0;
    while i < v.len()
        invariant
            i <= v@.len(),
            (out@, gap) == collapse_state(v@.take(i as int)),
        decreases v@.len() - i,
    {
        let c = v[i];
        proof {
            assert(v@.take(i + 1).drop_last() =~= v@.take(i as int));
        }
        if char_is_whitespace(c) {
            gap = out.len() > 0;
        } else {
            if gap {
                out.push(' ');
            }
            out.push(c);
            gap = false;
        }
        i = i + 1;
    }
    proof {
        assert(v@.take(i as int) =~= v@);
    }
    out
}

fn is_literal(v: &Vec<char>, literal: &str) -> (r: bool)
    ensures
        r == (v@ == literal@),
{
    let text = string_from_chars(v);
    let expected = String::from_str(literal);
    text == expected
}

/// The friendly name of a well-known program, else the humanized name.
pub fn friendly_name_fallback(name: &str) -> (r: String)
    ensures
        r@ == friendly_name(name@),
{
    let chars = chars_of(name);
    let trimmed = trim_chars(&chars);
    let normalized = ascii_lowercase_chars(&trimmed);
    if is_literal(&normalized, "msedge") {
        String::from_str("Microsoft Edge")
    } else if is_literal(&normalized, "chrome") {
        String::from_str("Google Chrome")
    } else if is_literal(&normalized, "code") {
        String::from_str("Visual Studio Code")
    } else if is_literal(&normalized, "wechat") {
        String::from_str("WeChat")
    } else if is_literal(&normalized, "qq") {
        String::from_str("QQ")
    } else if is_literal(&normalized, "explorer") {
        String::from_str("Windows Explorer")
    } else if is_literal(&normalized, "powershell") {
        String::from_str("Windows PowerShell")
    } else if is_literal(&normalized, "pwsh") {
        String::from_str("PowerShell")
    } else if is_literal(&normalized, "cmd") {
        String::from_str("Command Prompt")
    } else if is_literal(&normalized, "spotify") {
        String::from_str("Spotify")
    } else {
        humanize_process_name(name)
    }
}


/// Whether `name` can be what `Path::file_name` returns for `path`: a
/// nonempty run of the path's characters, not `..`. (Which characters it may
/// hold depends on the platform and the path's prefix: on Windows a verbatim
/// `\\?\` path is split at `\` alone, so its file name may hold `/`.)
pub open spec fn file_name_of_path(path: Seq<char>, name: Seq<char>) -> bool {
    &&& name.len() > 0
    &&& name != ".."@
    &&& exists|start: int| 0 <= start && start + name.len() <= path.len() && #[trigger] path.subrange(start, start + name.len()) == name
}

/// Whether `p` is a bare file name on every platform: nonempty, no `/`, `\`
/// or `:` (so neither a separator nor a drive or server prefix), and neither
/// `.` nor `..`.
pub open spec fn bare_file_name(p: Seq<char>) -> bool {
    p.len() > 0 && !path_like(p) && p != "."@ && p != ".."@
}

/// The text after the last `/` of `p`; all of `p` when it has none.
pub open spec fn after_last_slash(p: Seq<char>) -> Seq<char> {
    p.subrange(last_index_of(p, '/') + 1, p.len() as int)
}

/// Whether every platform reads `p` as components separated by `/` that end
/// in a plain file name: no `\` and no `:` (so no other separator and no
/// drive, verbatim or device prefix), no leading `//` (a server prefix on
/// Windows), and a last component that is nonempty and neither `.` nor `..`.
pub open spec fn slash_path_with_file_name(p: Seq<char>) -> bool {
    &&& !p.contains('\\')
    &&& !p.contains(':')
    &&& !(p.len() >= 2 && p[0] == '/' && p[1] == '/')
    &&& after_last_slash(p).len() > 0
    &&& after_last_slash(p) != "."@
    &&& after_last_slash(p) != ".."@
}

/// The text after the last `\` of `p`; all of `p` when it has none.
pub open spec fn after_last_backslash(p: Seq<char>) -> Seq<char> {
    p.subrange(last_index_of(p, '\\') + 1, p.len() as int)
}

/// Whether `p` is a path in Windows form that every platform reads as ending
/// in a file name: no `/`, no leading `\\` (a server, device or verbatim
/// prefix on Windows), a `:` only as the drive colon of an absolute `X:\`
/// path, and a nonempty last `\`-separated component that is neither `.`
/// nor `..`. Windows splits it at `\`, so its file name is that last
/// component; elsewhere `\` separates nothing, so it is the whole text.
pub open spec fn backslash_path_with_file_name(p: Seq<char>) -> bool {
    &&& !p.contains('/')
    &&& !(p.len() >= 2 && p[0] == '\\' && p[1] == '\\')
    &&& forall|i: int|
        0 <= i < p.len() && #[trigger] p[i] == ':' ==> i == 1 && p.len() > 2 && p[2] == '\\' && (('a' <= p[0] && p[0] <= 'z') || (
        'A' <= p[0] && p[0] <= 'Z'))
    &&& after_last_backslash(p).len() > 0
    &&& after_last_backslash(p) != "."@
    &&& after_last_backslash(p) != ".."@
}

/// `Path::file_name`: the final component of the path, if it has one. A bare
/// file name is its own single component, and a `/`-separated path without
/// prefix ends in the text after its last `/`. Which characters separate
/// components, and how drive or server prefixes are read, depends on the
/// platform; for other paths this states only what holds on all.
#[verifier::external_body]
fn path_file_name(path: &str) -> (r: Option<String>)
    ensures
        r matches Some(name) ==> file_name_of_path(path@, name@),
        r matches Some(name) ==> (bare_file_name(path@) ==> name@ == path@),
        r is Some || !bare_file_name(path@),
        r matches Some(name) ==> (slash_path_with_file_name(path@) ==> name@ == after_last_slash(path@)),
        r is Some || !slash_path_with_file_name(path@),
        r matches Some(name) ==> (backslash_path_with_file_name(path@) ==> name@ == path@ || name@ == after_last_backslash(
            path@,
        )),
        r is Some || !backslash_path_with_file_name(path@),
{
    match std::path::Path::new(path).file_name() {
        Some(name) => Some(name.to_string_lossy().to_string()),
        None => None,
    }
}

/// Index of the last `c` in `s`, or -1.
pub open spec fn last_index_of(s: Seq<char>, c: char) -> int
    decreases s.len(),
{
    if s.len() == 0 {
        -1
    } else if s.last() == c {
        s.len() - 1
    } else {
        last_index_of(s.drop_last(), c)
    }
}

/// The stem of a file name as `Path::file_stem` takes it: the part before the
/// last dot, unless there is no dot, the only dot leads, or the name is `..`.
pub open spec fn file_stem(name: Seq<char>) -> Seq<char> {
    let dot = last_index_of(name, '.');
    if name == ".."@ || dot <= 0 {
        name
    } else {
        name.subrange(0, dot)
    }
}

/// The name under which an image is shown when nothing better is known: the
/// stem of its file name when that is nonempty, else the image name itself.
pub open spec fn display_stem(image_name: Seq<char>, file_name: Option<Seq<char>>) -> Seq<char> {
    match file_name {
        Some(name) => if file_stem(name).len() > 0 { file_stem(name) } else { image_name },
        None => image_name,
    }
}

fn last_dot(v: &Vec<char>) -> (r: usize)
    ensures
        r as int == last_index_of(v@, '.') + 1,
        r <= v@.len(),
{
    let mut end = v.len();
    assert(v@.take(end as int) =~= v@);
    while end > 0 && v[end - 1] != '.'
        invariant
            end <= v@.len(),
            last_index_of(v@, '.') == last_index_of(v@.take(end as int), '.'),
        decreases end,
    {
        proof {
            assert(v@.take(end - 1) =~= v@.take(end as int).drop_last());
        }
        end = end - 1;
    }
    proof {
        if end == 0 {
            assert(v@.take(0) =~= Seq::<char>::empty());
        }
    }
    end
}

/// `file_stem(name)`.
pub fn stem_of_file_name(name: &str) -> (r: String)
    ensures
        r@ == file_stem(name@),
{
    let v = chars_of(name);
    let after_dot = last_dot(&v);
    if is_literal(&v, "..") || after_dot <= 1 {
        String::from_str(name)
    } else {
        let stem = slice_chars(&v, after_dot - 1);
        string_from_chars(&stem)
    }
}

fn slice_chars(v: &Vec<char>, end: usize) -> (r: Vec<char>)
    requires
        end <= v@.len(),
    ensures
        r@ == v@.subrange(0, end as int),
{
    let mut r: Vec<char> = Vec::new();
    let mut i: usize = 0;
    while i < end
        invariant
            i <= end <= v@.len(),
            r@ == v@.subrange(0, i as int),
        decreases end - i,
    {
        r.push(v[i]);
        i = i + 1;
        assert(r@ =~= v@.subrange(0, i as int));
    }
    r
}

/// `display_stem(image_name, file_name)`.
pub fn stem_or_image_name(image_name: &str, file_name: Option<String>) -> (r: String)
    ensures
        r@ == display_stem(image_name@, opt_chars(file_name)),
{
    match file_name {
        Some(name) => {
            let stem = stem_of_file_name(name.as_str());
            if stem.as_str().unicode_len() > 0 {
                stem
            } else {
                String::from_str(image_name)
            }
        },
        None => String::from_str(image_name),
    }
}

/// The stem of the image's file name, or the image name when it has none.
pub fn display_stem_from_image(image_name: &str) -> (r: String)
    ensures
        exists|file_name: Option<Seq<char>>|
            (file_name matches Some(name) ==> file_name_of_path(image_name@, name))
            && r@ == #[trigger] display_stem(image_name@, file_name),
        bare_file_name(image_name@) ==> r@ == display_stem(image_name@, Some(image_name@)),
        slash_path_with_file_name(image_name@) ==> r@ == display_stem(image_name@, Some(after_last_slash(image_name@))),
        backslash_path_with_file_name(image_name@) ==> r@ == display_stem(image_name@, Some(image_name@)) || r@
            == display_stem(image_name@, Some(after_last_backslash(image_name@))),
{
    let file_name = path_file_name(image_name);
    let ghost seen = opt_chars(file_name);
    let r = stem_or_image_name(image_name, file_name);
    assert(seen matches Some(name) ==> file_name_of_path(image_name@, name));
    assert(bare_file_name(image_name@) ==> seen == Some(image_name@));
    assert(slash_path_with_file_name(image_name@) ==> seen == Some(after_last_slash(image_name@)));
    assert(backslash_path_with_file_name(image_name@) ==> seen == Some(image_name@) || seen == Some(
        after_last_backslash(image_name@),
    ));
    r
}

/// The name shown for a process when the system offers no description: the
/// friendly name of its image stem.
pub fn fallback_display_name(image_name: &str) -> (r: String)
    ensures
        exists|file_name: Option<Seq<char>>|
            (file_name matches Some(name) ==> file_name_of_path(image_name@, name))
            && r@ == #[trigger] friendly_name(display_stem(image_name@, file_name)),
        bare_file_name(image_name@) ==> r@ == friendly_name(display_stem(image_name@, Some(image_name@))),
        slash_path_with_file_name(image_name@) ==> r@ == friendly_name(
            display_stem(image_name@, Some(after_last_slash(image_name@))),
        ),
        backslash_path_with_file_name(image_name@) ==> r@ == friendly_name(display_stem(image_name@, Some(image_name@)))
            || r@ == friendly_name(display_stem(image_name@, Some(after_last_backslash(image_name@)))),
{
    let stem = display_stem_from_image(image_name);
    friendly_name_fallback(stem.as_str())
}

/// Whether `name` is a name `fallback_display_name` can give the image: the
/// friendly name of the stem of a file name the path may have, and of the
/// image's own stem when the image is a bare file name.
pub open spec fn fallback_name_for(image: Seq<char>, name: Seq<char>) -> bool {
    &&& exists|file_name: Option<Seq<char>>|
        (file_name matches Some(n) ==> file_name_of_path(image, n))
        && name == #[trigger] friendly_name(display_stem(image, file_name))
    &&& bare_file_name(image) ==> name == friendly_name(display_stem(image, Some(image)))
    &&& slash_path_with_file_name(image) ==> name == friendly_name(display_stem(image, Some(after_last_slash(image))))
    &&& backslash_path_with_file_name(image) ==> name == friendly_name(display_stem(image, Some(image))) || name
        == friendly_name(display_stem(image, Some(after_last_backslash(image))))
}

/// The name shown for a process, from the names the system gave: the
/// packaged application's name, else the description of the process's
/// executable, else the description of its image file, else the fallback name
/// of the image.
pub fn display_name_from_sources(
    packaged: Option<String>,
    process_description: Option<String>,
    image_description: Option<String>,
    image_name: &str,
) -> (r: String)
    ensures
        match (packaged, process_description, image_description) {
            (Some(name), _, _) => r@ == name@,
            (None, Some(name), _) => r@ == name@,
            (None, None, Some(name)) => r@ == name@,
            (None, None, None) => fallback_name_for(image_name@, r@),
        },
{
    match packaged {
        Some(name) => name,
        None => match process_description {
            Some(name) => name,
            None => match image_description {
                Some(name) => name,
                None => fallback_display_name(image_name),
            },
        },
    }
}

} // verus!
