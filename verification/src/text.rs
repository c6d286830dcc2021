//! The text model: trimming, splitting into lines, joining lines and decimal
//! numerals, each stated over sequences of characters and implemented by a
//! verified function.

use vstd::prelude::*;
use crate::chars::{is_white_space, char_is_whitespace, push_char};

verus! {

/// The number of leading characters of `s` that are Unicode white space.
pub open spec fn leading_ws(s: Seq<char>) -> nat
    decreases s.len(),
{
    if s.len() > 0 && is_white_space(s[0]) {
        1 + leading_ws(s.drop_first())
    } else {
        0
    }
}

/// The number of trailing characters of `s` that are Unicode white space.
pub open spec fn trailing_ws(s: Seq<char>) -> nat
    decreases s.len(),
{
    if s.len() > 0 && is_white_space(s.last()) {
        1 + trailing_ws(s.drop_last())
    } else {
        0
    }
}

/// `str::trim_start`: `s` without its leading white space.
pub open spec fn trim_start(s: Seq<char>) -> Seq<char> {
    s.skip(leading_ws(s) as int)
}

/// `str::trim_end`: `s` without its trailing white space.
pub open spec fn trim_end(s: Seq<char>) -> Seq<char> {
    s.take(s.len() - trailing_ws(s))
}

/// `str::trim`: `s` without leading and trailing white space.
pub open spec fn trim(s: Seq<char>) -> Seq<char> {
    trim_end(trim_start(s))
}

pub proof fn lemma_leading_ws(s: Seq<char>, i: int)
    requires
        0 <= i <= s.len(),
        forall|j: int| 0 <= j < i ==> is_white_space(#[trigger] s[j]),
        i == s.len() || !is_white_space(s[i]),
    ensures
        leading_ws(s) == i,
    decreases i,
{
    if i > 0 {
        lemma_leading_ws(s.drop_first(), i - 1);
    }
}

pub proof fn lemma_trailing_ws(s: Seq<char>, k: int)
    requires
        0 <= k <= s.len(),
        forall|j: int| s.len() - k <= j < s.len() ==> is_white_space(#[trigger] s[j]),
        k == s.len() || !is_white_space(s[s.len() - k - 1]),
    ensures
        trailing_ws(s) == k,
    decreases k,
{
    if k > 0 {
        lemma_trailing_ws(s.drop_last(), k - 1);
    }
}

pub proof fn lemma_leading_ws_bound(s: Seq<char>)
    ensures
        leading_ws(s) <= s.len(),
        forall|j: int| 0 <= j < leading_ws(s) ==> is_white_space(#[trigger] s[j]),
        leading_ws(s) < s.len() ==> !is_white_space(s[leading_ws(s) as int]),
    decreases s.len(),
{
    if s.len() > 0 && is_white_space(s[0]) {
        lemma_leading_ws_bound(s.drop_first());
        assert forall|j: int| 0 <= j < leading_ws(s) implies is_white_space(#[trigger] s[j]) by {
            if j > 0 {
                assert(s[j] == s.drop_first()[j - 1]);
            }
        }
    }
}

pub proof fn lemma_trailing_ws_bound(s: Seq<char>)
    ensures
        trailing_ws(s) <= s.len(),
        forall|j: int| s.len() - trailing_ws(s) <= j < s.len() ==> is_white_space(#[trigger] s[j]),
        trailing_ws(s) < s.len() ==> !is_white_space(s[s.len() - trailing_ws(s) - 1]),
    decreases s.len(),
{
    if s.len() > 0 && is_white_space(s.last()) {
        lemma_trailing_ws_bound(s.drop_last());
        assert forall|j: int| s.len() - trailing_ws(s) <= j < s.len() implies is_white_space(
            #[trigger] s[j],
        ) by {
            if j < s.len() - 1 {
                assert(s[j] == s.drop_last()[j]);
            }
        }
    }
}

/// Trailing white space of `a + b` is that of `b` when `b` has some other
/// character.
pub proof fn lemma_trim_end_concat(a: Seq<char>, b: Seq<char>)
    requires
        trim_end(b).len() > 0,
    ensures
        trim_end(a + b) == a + trim_end(b),
{
    lemma_trailing_ws_bound(b);
    let k = trailing_ws(b) as int;
    let ab = a + b;
    assert forall|j: int| ab.len() - k <= j < ab.len() implies is_white_space(#[trigger] ab[j]) by {
        assert(ab[j] == b[j - a.len()]);
    }
    assert(ab[ab.len() - k - 1] == b[b.len() - k - 1]);
    lemma_trailing_ws(ab, k);
    assert(trim_end(ab) =~= a + trim_end(b));
}

/// White space trimmed from both ends leaves none at either end.
pub proof fn lemma_trim_trimmed(s: Seq<char>)
    ensures
        leading_ws(trim(s)) == 0,
        trailing_ws(trim(s)) == 0,
{
    let t = trim_start(s);
    lemma_leading_ws_bound(s);
    lemma_trailing_ws_bound(t);
    let r = trim(s);
    if r.len() > 0 {
        assert(r[0] == t[0]);
        assert(t[0] == s[leading_ws(s) as int]);
        assert(r.last() == t[t.len() - trailing_ws(t) - 1]);
    }
}

/// The index of the first character of `v[from..]` that is not white space
/// (or `v.len()`): `v[from..]` trimmed at the start is `v[result..]`.
pub fn skip_ws(v: &[char], from: usize) -> (r: usize)
    requires
        from <= v@.len(),
    ensures
        from <= r <= v@.len(),
        r == from + leading_ws(v@.skip(from as int)),
        trim_start(v@.skip(from as int)) == v@.skip(r as int),
{
    let n = v.len();
    let mut i = from;
    while i < n && char_is_whitespace(v[i])
        invariant
            from <= i <= n == v@.len(),
            forall|j: int| from <= j < i ==> is_white_space(#[trigger] v@[j]),
        decreases n - i,
    {
        i = i + 1;
    }
    proof {
        let s = v@.skip(from as int);
        assert forall|j: int| 0 <= j < i - from implies is_white_space(#[trigger] s[j]) by {
            assert(s[j] == v@[from + j]);
        }
        if i < n {
            assert(s[i - from] == v@[i as int]);
        }
        lemma_leading_ws(s, i - from);
        assert(s.skip(i - from) =~= v@.skip(i as int));
    }
    i
}

/// The length of `v[..to]` once its trailing white space is removed:
/// `v[..to]` trimmed at the end is `v[..result]`.
pub fn end_without_ws(v: &[char], to: usize) -> (r: usize)
    requires
        to <= v@.len(),
    ensures
        r <= to,
        trim_end(v@.take(to as int)) == v@.take(r as int),
{
    let mut i = to;
    while i > 0 && char_is_whitespace(v[i - 1])
        invariant
            i <= to <= v@.len(),
            forall|j: int| i <= j < to ==> is_white_space(#[trigger] v@[j]),
        decreases i,
    {
        i = i - 1;
    }
    proof {
        let s = v@.take(to as int);
        assert forall|j: int| s.len() - (to - i) <= j < s.len() implies is_white_space(
            #[trigger] s[j],
        ) by {
            assert(s[j] == v@[j]);
        }
        if i > 0 {
            assert(s[s.len() - (to - i) - 1] == v@[i - 1]);
        }
        lemma_trailing_ws(s, to - i);
        assert(s.take(s.len() - (to - i)) =~= v@.take(i as int));
    }
    i
}

/// The index of the first line feed at or after `k` in `s`, or `s.len()`.
pub open spec fn newline_from(s: Seq<char>, k: int) -> int
    decreases s.len() - k,
{
    if k < 0 || k >= s.len() {
        s.len() as int
    } else if s[k] == '\n' {
        k
    } else {
        newline_from(s, k + 1)
    }
}

pub proof fn lemma_newline_from(s: Seq<char>, k: int)
    requires
        0 <= k <= s.len(),
    ensures
        k <= newline_from(s, k) <= s.len(),
        forall|j: int| k <= j < newline_from(s, k) ==> #[trigger] s[j] != '\n',
        newline_from(s, k) < s.len() ==> s[newline_from(s, k)] == '\n',
    decreases s.len() - k,
{
    if k < s.len() && s[k] != '\n' {
        lemma_newline_from(s, k + 1);
    }
}

/// `l` without one final carriage return, if it ends with one.
pub open spec fn strip_cr(l: Seq<char>) -> Seq<char> {
    if l.len() > 0 && l.last() == '\r' {
        l.drop_last()
    } else {
        l
    }
}

/// The line of `s` that starts at `k`: the characters up to the next line
/// feed; a line ended by a line feed also loses a final carriage return.
pub open spec fn line_at(s: Seq<char>, k: int) -> Seq<char> {
    let e = newline_from(s, k);
    if e < s.len() {
        strip_cr(s.subrange(k, e))
    } else {
        s.subrange(k, e)
    }
}

/// The lines of `s` from position `k` on, as `str::lines` yields them.
pub open spec fn lines_from(s: Seq<char>, k: int) -> Seq<Seq<char>>
    decreases s.len() + 1 - k,
    via lines_from_decreases
{
    if k < 0 || k >= s.len() {
        Seq::empty()
    } else {
        seq![line_at(s, k)] + lines_from(s, newline_from(s, k) + 1)
    }
}

#[via_fn]
proof fn lines_from_decreases(s: Seq<char>, k: int) {
    if 0 <= k < s.len() {
        lemma_newline_from(s, k);
    }
}

/// `str::lines`: the lines of `s`, split at `\n` or `\r\n`; a final line
/// ending is optional and yields no extra empty line.
pub open spec fn spec_lines(s: Seq<char>) -> Seq<Seq<char>> {
    lines_from(s, 0)
}

/// Lines joined with `\n` between consecutive lines (`[..].join("\n")`).
pub open spec fn join_lines(ls: Seq<Seq<char>>) -> Seq<char>
    decreases ls.len(),
{
    if ls.len() == 0 {
        Seq::empty()
    } else if ls.len() == 1 {
        ls[0]
    } else {
        join_lines(ls.drop_last()) + seq!['\n'] + ls.last()
    }
}

pub proof fn lemma_join_push(ls: Seq<Seq<char>>, l: Seq<char>)
    ensures
        join_lines(ls.push(l)) == if ls.len() == 0 {
            l
        } else {
            join_lines(ls) + seq!['\n'] + l
        },
{
    assert(ls.push(l).drop_last() =~= ls);
}

/// Positions in `s.skip(k)` are those of `s`, shifted by `k`.
proof fn lemma_newline_from_shift(s: Seq<char>, k: int, m: int)
    requires
        0 <= k <= m <= s.len(),
    ensures
        newline_from(s, m) == k + newline_from(s.skip(k), m - k),
    decreases s.len() - m,
{
    if m < s.len() {
        assert(s.skip(k)[m - k] == s[m]);
        if s[m] != '\n' {
            lemma_newline_from_shift(s, k, m + 1);
        }
    }
}

proof fn lemma_lines_from_shift_at(s: Seq<char>, k: int, m: int)
    requires
        0 <= k <= m,
        k <= s.len(),
    ensures
        lines_from(s, m) == lines_from(s.skip(k), m - k),
    decreases s.len() + 1 - m,
{
    if k <= s.len() && m < s.len() {
        let t = s.skip(k);
        lemma_newline_from_shift(s, k, m);
        lemma_newline_from(s, m);
        let e = newline_from(s, m);
        assert(s.subrange(m, e) =~= t.subrange(m - k, e - k));
        assert(line_at(s, m) == line_at(t, m - k));
        lemma_lines_from_shift_at(s, k, e + 1);
    }
}

/// The lines of `s` from `k` on are the lines of `s` without its first `k`
/// characters.
pub proof fn lemma_lines_from_shift(s: Seq<char>, k: int)
    requires
        0 <= k <= s.len(),
    ensures
        lines_from(s, k) == spec_lines(s.skip(k)),
{
    lemma_lines_from_shift_at(s, k, k);
}

/// A text with no line feed is one line, or none when it is empty.
proof fn lemma_lines_of_line(x: Seq<char>)
    requires
        forall|j: int| 0 <= j < x.len() ==> #[trigger] x[j] != '\n',
    ensures
        spec_lines(x) == if x.len() == 0 {
            Seq::<Seq<char>>::empty()
        } else {
            seq![x]
        },
{
    if x.len() > 0 {
        lemma_newline_from(x, 0);
        assert(x.subrange(0, x.len() as int) =~= x);
        assert(lines_from(x, x.len() as int + 1) =~= Seq::<Seq<char>>::empty());
    }
}

/// Joining puts the first line, a line feed, and the rest joined.
proof fn lemma_join_front(ls: Seq<Seq<char>>)
    requires
        ls.len() >= 2,
    ensures
        join_lines(ls) == ls[0] + seq!['\n'] + join_lines(ls.drop_first()),
    decreases ls.len(),
{
    let a = ls.drop_last();
    let b = ls.drop_first();
    if ls.len() > 2 {
        lemma_join_front(a);
        assert(a.drop_first() =~= b.drop_last());
        assert(b.last() == ls.last());
        assert(a[0] == ls[0]);
        assert(join_lines(ls) == join_lines(a) + seq!['\n'] + ls.last());
        assert(join_lines(a) == a[0] + seq!['\n'] + join_lines(a.drop_first()));
        assert(join_lines(b) == join_lines(b.drop_last()) + seq!['\n'] + b.last());
        assert(join_lines(ls) =~= ls[0] + seq!['\n'] + join_lines(b));
    } else {
        assert(join_lines(b) == b[0]);
        assert(join_lines(a) == a[0]);
        assert(join_lines(ls) =~= ls[0] + seq!['\n'] + join_lines(b));
    }
}

/// The lines `ls` with a final carriage return taken off every line but the
/// last.
pub open spec fn strip_cr_but_last(ls: Seq<Seq<char>>) -> Seq<Seq<char>> {
    Seq::new(ls.len(), |i: int| if i < ls.len() - 1 { strip_cr(ls[i]) } else { ls[i] })
}

/// Splitting joined lines gives them back, when none holds a line feed,
/// except that every line but the last loses a final carriage return and a
/// last empty line is lost.
pub proof fn lemma_lines_of_join(ls: Seq<Seq<char>>)
    requires
        forall|i: int, j: int|
            0 <= i < ls.len() && 0 <= j < ls[i].len() ==> #[trigger] ls[i][j] != '\n',
    ensures
        spec_lines(join_lines(ls)) == if ls.len() > 0 && ls.last().len() == 0 {
            strip_cr_but_last(ls).drop_last()
        } else {
            strip_cr_but_last(ls)
        },
    decreases ls.len(),
{
    if ls.len() == 0 {
        assert(spec_lines(Seq::<char>::empty()) =~= Seq::<Seq<char>>::empty());
        assert(strip_cr_but_last(ls) =~= Seq::<Seq<char>>::empty());
    } else if ls.len() == 1 {
        assert(forall|j: int| 0 <= j < ls[0].len() ==> #[trigger] ls[0][j] != '\n');
        lemma_lines_of_line(ls[0]);
        if ls[0].len() == 0 {
            assert(strip_cr_but_last(ls).drop_last() =~= Seq::<Seq<char>>::empty());
        } else {
            assert(strip_cr_but_last(ls) =~= seq![ls[0]]);
        }
    } else {
        let rest = ls.drop_first();
        assert forall|i: int, j: int| 0 <= i < rest.len() && 0 <= j < rest[i].len() implies #[trigger] rest[i][j] != '\n' by {
            assert(rest[i] == ls[i + 1]);
        }
        lemma_lines_of_join(rest);
        lemma_join_front(ls);
        let x = ls[0];
        let s = join_lines(ls);
        let jr = join_lines(rest);
        assert forall|j: int| 0 <= j < x.len() implies #[trigger] s[j] != '\n' by {
            assert(s[j] == x[j]);
            assert(ls[0][j] != '\n');
        }
        assert(s[x.len() as int] == '\n');
        lemma_newline_from(s, 0);
        assert(newline_from(s, 0) == x.len()) by {
            if newline_from(s, 0) < x.len() {
                assert(s[newline_from(s, 0)] == '\n');
            }
        }
        assert(s.subrange(0, x.len() as int) =~= x);
        assert(s.skip(x.len() as int + 1) =~= jr);
        lemma_lines_from_shift(s, x.len() as int + 1);
        assert(spec_lines(s) =~= seq![strip_cr(x)] + spec_lines(jr));
        let m = strip_cr_but_last(ls);
        let mr = strip_cr_but_last(rest);
        assert(m =~= seq![strip_cr(x)] + mr);
        if ls.last().len() == 0 {
            assert(rest.last() == ls.last());
            assert(seq![strip_cr(x)] + mr.drop_last() =~= m.drop_last());
        }
    }
}

/// The index of the first line feed at or after `from` in `v`, or `v.len()`.
pub fn find_newline(v: &[char], from: usize) -> (r: usize)
    requires
        from <= v@.len(),
    ensures
        r == newline_from(v@, from as int),
        from <= r <= v@.len(),
{
    proof {
        lemma_newline_from(v@, from as int);
    }
    let n = v.len();
    let mut i = from;
    while i < n && v[i] != '\n'
        invariant
            from <= i <= n == v@.len(),
            newline_from(v@, i as int) == newline_from(v@, from as int),
        decreases n - i,
    {
        i = i + 1;
    }
    i
}

/// The end of the content of the line that starts at `from`: with
/// `e = find_newline(v, from)`, the line is `v[from..result]`.
pub fn line_content_end(v: &[char], from: usize, e: usize) -> (r: usize)
    requires
        from <= v@.len(),
        e == newline_from(v@, from as int),
    ensures
        from <= r <= e,
        v@.subrange(from as int, r as int) == line_at(v@, from as int),
{
    proof {
        lemma_newline_from(v@, from as int);
    }
    if e < v.len() && e > from && v[e - 1] == '\r' {
        proof {
            assert(v@.subrange(from as int, e as int).drop_last() =~= v@.subrange(
                from as int,
                e - 1,
            ));
        }
        e - 1
    } else {
        e
    }
}

/// The decimal digit `d` (`d < 10`) as a character.
pub open spec fn digit_char(d: nat) -> char {
    if d == 0 {
        '0'
    } else if d == 1 {
        '1'
    } else if d == 2 {
        '2'
    } else if d == 3 {
        '3'
    } else if d == 4 {
        '4'
    } else if d == 5 {
        '5'
    } else if d == 6 {
        '6'
    } else if d == 7 {
        '7'
    } else if d == 8 {
        '8'
    } else {
        '9'
    }
}

proof fn lemma_digit_char_injective(a: nat, b: nat)
    requires
        a < 10,
        b < 10,
        digit_char(a) == digit_char(b),
    ensures
        a == b,
{
}

/// The decimal numeral of `n`, without sign or leading zeros, as integers
/// are displayed (`format!("{}", n)`).
pub open spec fn decimal(n: nat) -> Seq<char>
    decreases n,
{
    if n < 10 {
        seq![digit_char(n)]
    } else {
        decimal(n / 10).push(digit_char(n % 10))
    }
}

pub proof fn lemma_decimal_len(n: nat)
    ensures
        decimal(n).len() >= 1,
        n >= 10 ==> decimal(n).len() >= 2,
    decreases n,
{
    if n >= 10 {
        lemma_decimal_len(n / 10);
    }
}

/// Different numbers have different numerals.
pub proof fn lemma_decimal_injective(a: nat, b: nat)
    requires
        decimal(a) == decimal(b),
    ensures
        a == b,
    decreases a,
{
    lemma_decimal_len(a);
    lemma_decimal_len(b);
    if a >= 10 && b >= 10 {
        assert(decimal(a / 10) =~= decimal(a).drop_last());
        assert(decimal(b / 10) =~= decimal(b).drop_last());
        lemma_decimal_injective(a / 10, b / 10);
        assert(decimal(a).last() == digit_char((a % 10) as nat));
        assert(decimal(b).last() == digit_char((b % 10) as nat));
        lemma_digit_char_injective((a % 10) as nat, (b % 10) as nat);
    } else if a < 10 && b < 10 {
        assert(decimal(a)[0] == digit_char(a));
        assert(decimal(b)[0] == digit_char(b));
        lemma_digit_char_injective(a, b);
    }
}

/// A numeral holds no `-`.
pub proof fn lemma_decimal_no_dash(n: nat)
    ensures
        forall|k: int| 0 <= k < decimal(n).len() ==> #[trigger] decimal(n)[k] != '-',
    decreases n,
{
    if n >= 10 {
        lemma_decimal_no_dash(n / 10);
        let d = decimal(n / 10);
        assert forall|k: int| 0 <= k < decimal(n).len() implies #[trigger] decimal(n)[k] != '-' by {
            if k < d.len() {
                assert(decimal(n)[k] == d[k]);
            }
        }
    }
}

/// A text numbered with `-` and a numeral determines both the text and the
/// number.
pub proof fn lemma_numbered_injective(a: Seq<char>, x: nat, c: Seq<char>, y: nat)
    requires
        a + seq!['-'] + decimal(x) == c + seq!['-'] + decimal(y),
    ensures
        a == c,
        x == y,
{
    let l = a + seq!['-'] + decimal(x);
    let r = c + seq!['-'] + decimal(y);
    let dx = decimal(x);
    let dy = decimal(y);
    lemma_decimal_no_dash(x);
    lemma_decimal_no_dash(y);
    if dx.len() < dy.len() {
        let p = l.len() - dx.len() - 1;
        assert(l[p] == '-');
        assert(r[p] == dy[p - c.len() - 1]);
    } else if dy.len() < dx.len() {
        let p = r.len() - dy.len() - 1;
        assert(r[p] == '-');
        assert(l[p] == dx[p - a.len() - 1]);
    }
    assert(dx =~= l.skip(l.len() - dx.len()));
    assert(dy =~= r.skip(r.len() - dy.len()));
    assert(a =~= l.take(a.len() as int));
    assert(c =~= r.take(c.len() as int));
    lemma_decimal_injective(x, y);
}

fn digit(d: usize) -> (c: char)
    requires
        d < 10,
    ensures
        c == digit_char(d as nat),
{
    if d == 0 {
        '0'
    } else if d == 1 {
        '1'
    } else if d == 2 {
        '2'
    } else if d == 3 {
        '3'
    } else if d == 4 {
        '4'
    } else if d == 5 {
        '5'
    } else if d == 6 {
        '6'
    } else if d == 7 {
        '7'
    } else if d == 8 {
        '8'
    } else {
        '9'
    }
}

/// Appends the decimal numeral of `n` to `s`.
pub fn push_decimal(s: &mut String, n: usize)
    ensures
        final(s)@ == old(s)@ + decimal(n as nat),
    decreases n,
{
    if n >= 10 {
        push_decimal(s, n / 10);
    }
    push_char(s, digit(n % 10));
    proof {
        if n >= 10 {
            assert(old(s)@ + decimal((n / 10) as nat) + seq![digit_char((n % 10) as nat)]
                =~= old(s)@ + decimal(n as nat));
        } else {
            assert(old(s)@.push(digit_char(n as nat)) =~= old(s)@ + decimal(n as nat));
        }
    }
}

} // verus!
