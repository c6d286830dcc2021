//! Anchors for headings: turning heading text into a slug.

use vstd::prelude::*;
use crate::chars::{
    is_white_space, unicode_alphanumeric, unicode_lowercase, char_is_whitespace,
    char_is_alphanumeric, char_to_lowercase, chars_of, string_from_chars, push_char,
};

verus! {

/// How a character of heading text contributes to its slug.
pub enum CharClass {
    /// An alphanumeric character, with the characters of its lowercase form.
    Alphanumeric(Vec<char>),
    /// White space, `-` or `_`: these become a single `-` between words.
    Separator,
    /// Any other character (punctuation, symbols, emoji, ...): dropped.
    Other,
}

/// Whether `cls` is the class of the character `c`: an alphanumeric character
/// keeps its lowercase form; white space, `-` and `_` separate words.
pub open spec fn is_class_of(c: char, cls: CharClass) -> bool {
    if unicode_alphanumeric(c) {
        cls matches CharClass::Alphanumeric(lc) && lc@ == unicode_lowercase(c)
    } else if is_white_space(c) || c == '-' || c == '_' {
        cls is Separator
    } else {
        cls is Other
    }
}

/// The slug being built over a sequence of classes, before its final clean
/// up, together with whether it currently ends with a separating `-`.
pub open spec fn class_scan(cls: Seq<CharClass>) -> (Seq<char>, bool)
    decreases cls.len(),
{
    if cls.len() == 0 {
        (Seq::empty(), false)
    } else {
        let (s, dash) = class_scan(cls.drop_last());
        match cls.last() {
            CharClass::Alphanumeric(lc) => (s + lc@, false),
            CharClass::Separator => if !dash && s.len() > 0 {
                (s.push('-'), true)
            } else {
                (s, dash)
            },
            CharClass::Other => (s, dash),
        }
    }
}

/// The slug being built over the characters of a text, before its final
/// clean up, together with whether it currently ends with a separating `-`.
pub open spec fn slug_scan(text: Seq<char>) -> (Seq<char>, bool)
    decreases text.len(),
{
    if text.len() == 0 {
        (Seq::empty(), false)
    } else {
        let (s, dash) = slug_scan(text.drop_last());
        let c = text.last();
        if unicode_alphanumeric(c) {
            (s + unicode_lowercase(c), false)
        } else if is_white_space(c) || c == '-' || c == '_' {
            if !dash && s.len() > 0 {
                (s.push('-'), true)
            } else {
                (s, dash)
            }
        } else {
            (s, dash)
        }
    }
}

/// The number of `-` characters at the end of `s`.
pub open spec fn trailing_dashes(s: Seq<char>) -> nat
    decreases s.len(),
{
    if s.len() > 0 && s.last() == '-' {
        1 + trailing_dashes(s.drop_last())
    } else {
        0
    }
}

/// The slug used when a heading's text yields no character at all.
pub open spec fn fallback_slug() -> Seq<char> {
    seq!['s', 'e', 'c', 'c', 'i', 'o', 'n']
}

/// The final clean up of a slug: trailing `-` are removed, and an empty slug
/// becomes the fallback slug.
pub open spec fn slug_finish(s: Seq<char>) -> Seq<char> {
    let t = s.take(s.len() - trailing_dashes(s));
    if t.len() == 0 {
        fallback_slug()
    } else {
        t
    }
}

/// The slug of a heading text: alphanumeric characters in lowercase, runs of
/// white space, `-` and `_` as one `-` between words, other characters
/// dropped, no `-` at the end, and `seccion` for a text with nothing left.
pub open spec fn spec_slugify(text: Seq<char>) -> Seq<char> {
    slug_finish(slug_scan(text).0)
}

proof fn lemma_trailing_dashes(s: Seq<char>)
    ensures
        trailing_dashes(s) <= s.len(),
        trailing_dashes(s) < s.len() ==> s[s.len() - trailing_dashes(s) - 1] != '-',
        forall|j: int| s.len() - trailing_dashes(s) <= j < s.len() ==> #[trigger] s[j] == '-',
    decreases s.len(),
{
    if s.len() > 0 && s.last() == '-' {
        lemma_trailing_dashes(s.drop_last());
        assert forall|j: int| s.len() - trailing_dashes(s) <= j < s.len() implies #[trigger] s[j]
            == '-' by {
            if j < s.len() - 1 {
                assert(s[j] == s.drop_last()[j]);
            }
        }
        if trailing_dashes(s) < s.len() {
            assert(s[s.len() - trailing_dashes(s) - 1] == s.drop_last()[s.len() - trailing_dashes(
                s,
            ) - 1]);
        }
    }
}

proof fn lemma_trailing_dashes_exact(s: Seq<char>, k: int)
    requires
        0 <= k <= s.len(),
        forall|j: int| s.len() - k <= j < s.len() ==> #[trigger] s[j] == '-',
        k == s.len() || s[s.len() - k - 1] != '-',
    ensures
        trailing_dashes(s) == k,
    decreases k,
{
    if k > 0 {
        lemma_trailing_dashes_exact(s.drop_last(), k - 1);
    }
}

/// Scanning classes that match a text character by character gives the
/// same slug as scanning the text.
proof fn lemma_class_scan_matches(text: Seq<char>, cls: Seq<CharClass>)
    requires
        cls.len() == text.len(),
        forall|i: int| 0 <= i < text.len() ==> is_class_of(#[trigger] text[i], cls[i]),
    ensures
        class_scan(cls) == slug_scan(text),
    decreases text.len(),
{
    if text.len() > 0 {
        lemma_class_scan_matches(text.drop_last(), cls.drop_last());
        assert(is_class_of(text[text.len() - 1], cls[cls.len() - 1]));
    }
}

/// The class of one character, from `char::is_alphanumeric`,
/// `char::to_lowercase` and `char::is_whitespace`.
pub fn classify_char(c: char) -> (cls: CharClass)
    ensures
        is_class_of(c, cls),
{
    if char_is_alphanumeric(c) {
        CharClass::Alphanumeric(char_to_lowercase(c))
    } else if char_is_whitespace(c) || c == '-' || c == '_' {
        CharClass::Separator
    } else {
        CharClass::Other
    }
}

/// The slug that a sequence of character classes yields.
pub fn slug_from_classes(classes: &[CharClass]) -> (slug: String)
    ensures
        slug@ == slug_finish(class_scan(classes@).0),
{
    let n = classes.len();
    let mut out: Vec<char> = Vec::new();
    let mut prev_dash = false;
    let mut i: usize = 0;
    while i < n
        invariant
            n == classes@.len(),
            i <= n,
            (out@, prev_dash) == class_scan(classes@.take(i as int)),
        decreases n - i,
    {
        assert(classes@.take(i + 1).drop_last() =~= classes@.take(i as int));
        match &classes[i] {
            CharClass::Alphanumeric(lc) => {
                let m = lc.len();
                let ghost before = out@;
                let mut j: usize = 0;
                while j < m
                    invariant
                        m == lc@.len(),
                        j <= m,
                        out@ == before + lc@.take(j as int),
                    decreases m - j,
                {
                    out.push(lc[j]);
                    assert(lc@.take(j as int).push(lc@[j as int]) =~= lc@.take(j + 1));
                    j = j + 1;
                }
                assert(lc@.take(m as int) =~= lc@);
                prev_dash = false;
            },
            CharClass::Separator => {
                if !prev_dash && out.len() > 0 {
                    out.push('-');
                    prev_dash = true;
                }
            },
            CharClass::Other => {},
        }
        i = i + 1;
    }
    assert(classes@.take(n as int) =~= classes@);
    let ghost scanned = out@;
    let mut end = out.len();
    while end > 0 && out[end - 1] == '-'
        invariant
            end <= out@.len(),
            out@ == scanned,
            forall|j: int| end <= j < out@.len() ==> #[trigger] out@[j] == '-',
        decreases end,
    {
        end = end - 1;
    }
    proof {
        lemma_trailing_dashes_exact(scanned, scanned.len() - end);
    }
    out.truncate(end);
    assert(out@ =~= scanned.take(scanned.len() - trailing_dashes(scanned)));
    if out.len() == 0 {
        let mut s = String::new();
        push_char(&mut s, 's');
        push_char(&mut s, 'e');
        push_char(&mut s, 'c');
        push_char(&mut s, 'c');
        push_char(&mut s, 'i');
        push_char(&mut s, 'o');
        push_char(&mut s, 'n');
        assert(s@ =~= fallback_slug());
        s
    } else {
        string_from_chars(out.as_slice())
    }
}

/// Turns heading text into an anchor slug (see `spec_slugify`).
pub fn slugify(text: &str) -> (slug: String)
    ensures
        slug@ == spec_slugify(text@),
{
    let cs = chars_of(text);
    let n = cs.len();
    let mut classes: Vec<CharClass> = Vec::new();
    let mut i: usize = 0;
    while i < n
        invariant
            n == cs@.len(),
            i <= n,
            classes@.len() == i,
            forall|j: int| 0 <= j < i ==> is_class_of(#[trigger] cs@[j], classes@[j]),
        decreases n - i,
    {
        classes.push(classify_char(cs[i]));
        i = i + 1;
    }
    proof {
        lemma_class_scan_matches(cs@, classes@);
    }
    slug_from_classes(classes.as_slice())
}

/// A slug is never empty and never ends with `-`.
pub proof fn law_slug_shape(text: Seq<char>)
    ensures
        spec_slugify(text).len() > 0,
        spec_slugify(text).last() != '-',
{
    let s = slug_scan(text).0;
    lemma_trailing_dashes(s);
    let t = s.take(s.len() - trailing_dashes(s));
    if t.len() > 0 {
        assert(t.last() == s[s.len() - trailing_dashes(s) - 1]);
    }
}

/// Whether `x` may stand in the slug of `text`: a `-`, or a character of
/// the lowercase form of an alphanumeric character of `text`.
pub open spec fn slug_char_of(text: Seq<char>, x: char) -> bool {
    x == '-' || exists|j: int|
        0 <= j < text.len() && unicode_alphanumeric(text[j]) && #[trigger] unicode_lowercase(
            text[j],
        ).contains(x)
}

proof fn lemma_slug_scan_chars(text: Seq<char>)
    ensures
        forall|k: int|
            0 <= k < slug_scan(text).0.len() ==> slug_char_of(text, #[trigger] slug_scan(text).0[k]),
    decreases text.len(),
{
    if text.len() > 0 {
        let prev = text.drop_last();
        lemma_slug_scan_chars(prev);
        let s = slug_scan(prev).0;
        let c = text.last();
        let t = slug_scan(text).0;
        assert forall|k: int| 0 <= k < t.len() implies slug_char_of(text, #[trigger] t[k]) by {
            if k < s.len() {
                assert(t[k] == s[k]);
                assert(slug_char_of(prev, s[k]));
                if s[k] != '-' {
                    let j = choose|j: int|
                        0 <= j < prev.len() && unicode_alphanumeric(prev[j]) && #[trigger] unicode_lowercase(
                            prev[j],
                        ).contains(s[k]);
                    assert(text[j] == prev[j]);
                }
            } else if unicode_alphanumeric(c) {
                assert(t[k] == unicode_lowercase(c)[k - s.len()]);
                assert(unicode_lowercase(c).contains(t[k]));
                assert(text[text.len() - 1] == c);
            }
        }
    }
}

/// A slug holds only dashes and lowercase forms of alphanumeric characters
/// of its text, unless it is the fallback slug `seccion`.
pub proof fn law_slug_chars(text: Seq<char>)
    ensures
        spec_slugify(text) == fallback_slug() || forall|k: int|
            0 <= k < spec_slugify(text).len() ==> slug_char_of(text, #[trigger] spec_slugify(text)[k]),
{
    lemma_slug_scan_chars(text);
    let s = slug_scan(text).0;
    lemma_trailing_dashes(s);
    let t = s.take(s.len() - trailing_dashes(s));
    assert forall|k: int| 0 <= k < t.len() implies slug_char_of(text, #[trigger] t[k]) by {
        assert(t[k] == s[k]);
    }
}

/// Whether `c` is an ASCII letter or digit.
pub open spec fn ascii_alnum(c: char) -> bool {
    ('a' <= c && c <= 'z') || ('A' <= c && c <= 'Z') || ('0' <= c && c <= '9')
}

/// The ASCII lowercase form of `c`: `A`..`Z` become `a`..`z`.
pub open spec fn ascii_lower(c: char) -> char {
    if 'A' <= c && c <= 'Z' {
        ((c as int) + 32) as char
    } else {
        c
    }
}

/// What Unicode's tables give for ASCII characters: the alphanumeric ones
/// are the letters and digits, and the lowercase form of one of them is its
/// ASCII lowercase form.
pub open spec fn ascii_tables_hold() -> bool {
    forall|c: char| 0 <= (c as int) < 128 ==> #[trigger] ascii_table_fact(c)
}

/// What Unicode's tables give for the character `c`, if it is ASCII: it is
/// alphanumeric exactly when it is a letter or digit, and then its
/// lowercase form is its ASCII lowercase form.
pub open spec fn ascii_table_fact(c: char) -> bool {
    &&& unicode_alphanumeric(c) == ascii_alnum(c)
    &&& ascii_alnum(c) ==> unicode_lowercase(c) == seq![ascii_lower(c)]
}

/// Asks std, through `char::is_alphanumeric` and `char::to_lowercase`,
/// about every ASCII character, and tells whether the answers are those of
/// `ascii_tables_hold` (the premise of `law_slugify_idempotent_ascii`).
pub fn ascii_tables_agree() -> (r: bool)
    ensures
        r == ascii_tables_hold(),
{
    let mut b: u8 = 0;
    while b < 128
        invariant
            b <= 128,
            forall|c: char| 0 <= (c as int) < b ==> #[trigger] ascii_table_fact(c),
        decreases 128 - b,
    {
        let c = b as char;
        assert(c as int == b as int);
        let alnum = ('a' <= c && c <= 'z') || ('A' <= c && c <= 'Z') || ('0' <= c && c <= '9');
        if char_is_alphanumeric(c) != alnum {
            assert(!ascii_table_fact(c));
            return false;
        }
        if alnum {
            let lower = if 'A' <= c && c <= 'Z' {
                (b + 32) as char
            } else {
                c
            };
            assert(lower == ascii_lower(c));
            let lc = char_to_lowercase(c);
            if lc.len() != 1 || lc[0] != lower {
                assert(lc@ != seq![ascii_lower(c)]);
                assert(!ascii_table_fact(c));
                return false;
            }
            assert(lc@ =~= seq![ascii_lower(c)]);
        }
        assert(ascii_table_fact(c));
        assert forall|d: char| 0 <= (d as int) < b + 1 implies #[trigger] ascii_table_fact(d) by {
            if d as int == b as int {
                assert(d == c);
            }
        }
        b = b + 1;
    }
    true
}

/// Whether `t` is made of lowercase ASCII letters, digits and single `-`
/// that do not start it.
pub open spec fn clean_slug(t: Seq<char>) -> bool {
    &&& forall|k: int|
        0 <= k < t.len() ==> #[trigger] t[k] == '-' || (ascii_alnum(t[k]) && ascii_lower(t[k])
            == t[k])
    &&& t.len() > 0 ==> t[0] != '-'
    &&& forall|k: int| 0 <= k < t.len() - 1 ==> !(#[trigger] t[k] == '-' && t[k + 1] == '-')
}

proof fn lemma_ascii_lower(c: char)
    requires
        ascii_alnum(c),
    ensures
        ascii_alnum(ascii_lower(c)),
        ascii_lower(ascii_lower(c)) == ascii_lower(c),
        (ascii_lower(c) as int) < 128,
{
}

/// The slug being built from ASCII text is clean, and it ends with `-`
/// exactly when the scan says so.
proof fn lemma_slug_scan_ascii(text: Seq<char>)
    requires
        ascii_tables_hold(),
        forall|k: int| 0 <= k < text.len() ==> 0 <= (#[trigger] text[k] as int) < 128,
    ensures
        clean_slug(slug_scan(text).0),
        slug_scan(text).1 == (slug_scan(text).0.len() > 0 && slug_scan(text).0.last() == '-'),
    decreases text.len(),
{
    if text.len() > 0 {
        let prev = text.drop_last();
        assert forall|k: int| 0 <= k < prev.len() implies 0 <= (#[trigger] prev[k] as int) < 128 by {
            assert(prev[k] == text[k]);
        }
        lemma_slug_scan_ascii(prev);
        let (s, dash) = slug_scan(prev);
        let c = text.last();
        assert(0 <= (c as int) < 128);
        assert(ascii_table_fact(c));
        let t = slug_scan(text).0;
        if unicode_alphanumeric(c) {
            assert(ascii_alnum(c));
            lemma_ascii_lower(c);
            assert(t =~= s.push(ascii_lower(c)));
            assert forall|k: int| 0 <= k < t.len() implies #[trigger] t[k] == '-' || (ascii_alnum(t[k])
                && ascii_lower(t[k]) == t[k]) by {
                if k < s.len() {
                    assert(t[k] == s[k]);
                }
            }
            assert forall|k: int| 0 <= k < t.len() - 1 implies !(#[trigger] t[k] == '-' && t[k + 1]
                == '-') by {
                assert(t[k] == s[k]);
                if k + 1 < s.len() {
                    assert(t[k + 1] == s[k + 1]);
                }
            }
        } else if is_white_space(c) || c == '-' || c == '_' {
            if !dash && s.len() > 0 {
                assert forall|k: int| 0 <= k < t.len() - 1 implies !(#[trigger] t[k] == '-' && t[k
                    + 1] == '-') by {
                    assert(t[k] == s[k]);
                    if k + 1 < s.len() {
                        assert(t[k + 1] == s[k + 1]);
                    }
                }
                assert forall|k: int| 0 <= k < t.len() implies #[trigger] t[k] == '-' || (ascii_alnum(
                    t[k],
                ) && ascii_lower(t[k]) == t[k]) by {
                    if k < s.len() {
                        assert(t[k] == s[k]);
                    }
                }
            }
        }
    }
}

/// Scanning a clean slug gives it back.
proof fn lemma_slug_scan_clean(t: Seq<char>)
    requires
        ascii_tables_hold(),
        clean_slug(t),
    ensures
        slug_scan(t).0 == t,
        slug_scan(t).1 == (t.len() > 0 && t.last() == '-'),
    decreases t.len(),
{
    if t.len() > 0 {
        let p = t.drop_last();
        assert forall|k: int| 0 <= k < p.len() implies #[trigger] p[k] == '-' || (ascii_alnum(p[k])
            && ascii_lower(p[k]) == p[k]) by {
            assert(p[k] == t[k]);
        }
        assert forall|k: int| 0 <= k < p.len() - 1 implies !(#[trigger] p[k] == '-' && p[k + 1]
            == '-') by {
            assert(p[k] == t[k]);
            assert(p[k + 1] == t[k + 1]);
        }
        if p.len() > 0 {
            assert(p[0] == t[0]);
        }
        lemma_slug_scan_clean(p);
        let c = t.last();
        assert(t[t.len() - 1] == c);
        assert(0 <= (c as int) < 128);
        assert(ascii_table_fact(c));
        if c == '-' {
            assert(!unicode_alphanumeric(c));
            assert(t.len() >= 2);
            assert(t[t.len() - 2] == p.last());
            assert(p.push('-') =~= t);
        } else {
            assert(ascii_alnum(c) && ascii_lower(c) == c);
            assert(unicode_alphanumeric(c));
            assert(p + seq![c] =~= t);
        }
    }
}

/// Slugifying a slug of ASCII text gives it back, given what Unicode's
/// tables say of ASCII characters (`ascii_tables_hold`, which
/// `ascii_tables_agree` checks against std).
pub proof fn law_slugify_idempotent_ascii(text: Seq<char>)
    requires
        ascii_tables_hold(),
        forall|k: int| 0 <= k < text.len() ==> 0 <= (#[trigger] text[k] as int) < 128,
    ensures
        spec_slugify(spec_slugify(text)) == spec_slugify(text),
{
    lemma_slug_scan_ascii(text);
    let s = slug_scan(text).0;
    lemma_trailing_dashes(s);
    let t = s.take(s.len() - trailing_dashes(s));
    if t.len() > 0 {
        assert(t.last() == s[s.len() - trailing_dashes(s) - 1]);
        assert forall|k: int| 0 <= k < t.len() implies #[trigger] t[k] == '-' || (ascii_alnum(t[k])
            && ascii_lower(t[k]) == t[k]) by {
            assert(t[k] == s[k]);
        }
        assert forall|k: int| 0 <= k < t.len() - 1 implies !(#[trigger] t[k] == '-' && t[k + 1]
            == '-') by {
            assert(t[k] == s[k]);
            assert(t[k + 1] == s[k + 1]);
        }
        assert(t[0] == s[0]);
        lemma_slug_scan_clean(t);
        lemma_trailing_dashes_exact(t, 0);
        assert(t.take(t.len() as int) =~= t);
    } else {
        let f = fallback_slug();
        assert(clean_slug(f));
        lemma_slug_scan_clean(f);
        lemma_trailing_dashes_exact(f, 0);
        assert(f.take(f.len() as int) =~= f);
    }
}

/// `s` without its `-` characters.
pub open spec fn without_dashes(s: Seq<char>) -> Seq<char>
    decreases s.len(),
{
    if s.len() == 0 {
        s
    } else if s.last() == '-' {
        without_dashes(s.drop_last())
    } else {
        without_dashes(s.drop_last()).push(s.last())
    }
}

/// The lowercase forms of the alphanumeric characters of `text`, in order
/// and run together.
pub open spec fn alphanumeric_lowercase(text: Seq<char>) -> Seq<char>
    decreases text.len(),
{
    if text.len() == 0 {
        Seq::empty()
    } else if unicode_alphanumeric(text.last()) {
        alphanumeric_lowercase(text.drop_last()) + unicode_lowercase(text.last())
    } else {
        alphanumeric_lowercase(text.drop_last())
    }
}

proof fn lemma_without_dashes_concat(a: Seq<char>, b: Seq<char>)
    ensures
        without_dashes(a + b) == without_dashes(a) + without_dashes(b),
    decreases b.len(),
{
    if b.len() == 0 {
        assert(a + b =~= a);
        assert(without_dashes(a) + without_dashes(b) =~= without_dashes(a));
    } else {
        lemma_without_dashes_concat(a, b.drop_last());
        assert((a + b).drop_last() =~= a + b.drop_last());
        assert((a + b).last() == b.last());
        if b.last() != '-' {
            assert(without_dashes(a) + without_dashes(b.drop_last()).push(b.last()) =~= (
            without_dashes(a) + without_dashes(b.drop_last())).push(b.last()));
        }
    }
}

/// Dashes at the end do not count once dashes are taken out.
proof fn lemma_without_trailing_dashes(s: Seq<char>, k: int)
    requires
        0 <= k <= s.len(),
        forall|j: int| k <= j < s.len() ==> #[trigger] s[j] == '-',
    ensures
        without_dashes(s.take(k)) == without_dashes(s),
    decreases s.len() - k,
{
    if k < s.len() {
        assert forall|j: int| k <= j < s.drop_last().len() implies #[trigger] s.drop_last()[j]
            == '-' by {
            assert(s.drop_last()[j] == s[j]);
        }
        lemma_without_trailing_dashes(s.drop_last(), k);
        assert(s.drop_last().take(k) =~= s.take(k));
    } else {
        assert(s.take(k) =~= s);
    }
}

proof fn lemma_slug_scan_keeps(text: Seq<char>)
    ensures
        without_dashes(slug_scan(text).0) == without_dashes(alphanumeric_lowercase(text)),
    decreases text.len(),
{
    if text.len() > 0 {
        let prev = text.drop_last();
        lemma_slug_scan_keeps(prev);
        let s = slug_scan(prev).0;
        let c = text.last();
        if unicode_alphanumeric(c) {
            lemma_without_dashes_concat(s, unicode_lowercase(c));
            lemma_without_dashes_concat(alphanumeric_lowercase(prev), unicode_lowercase(c));
        } else if is_white_space(c) || c == '-' || c == '_' {
            assert(s.push('-').drop_last() =~= s);
        }
    }
}

/// A slug keeps every alphanumeric character of its text: taking the `-`
/// out of it leaves exactly the lowercase forms of the text's alphanumeric
/// characters, in order. The fallback `seccion` comes only when those forms
/// hold nothing but `-` (for a text with no alphanumeric character).
pub proof fn law_slug_keeps_alphanumerics(text: Seq<char>)
    ensures
        without_dashes(alphanumeric_lowercase(text)).len() == 0 ==> spec_slugify(text)
            == fallback_slug(),
        without_dashes(alphanumeric_lowercase(text)).len() > 0 ==> without_dashes(
            spec_slugify(text),
        ) == without_dashes(alphanumeric_lowercase(text)),
{
    lemma_slug_scan_keeps(text);
    let s = slug_scan(text).0;
    lemma_trailing_dashes(s);
    let k = s.len() - trailing_dashes(s);
    lemma_without_trailing_dashes(s, k);
    let t = s.take(k);
    if t.len() == 0 {
        assert(t =~= Seq::<char>::empty());
        assert(without_dashes(t).len() == 0);
    }
}

} // verus!
