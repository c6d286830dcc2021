//! What processing a document guarantees as a whole: lines are kept, code
//! is left alone, every heading's slug is the anchor written in its line,
//! no two headings share a slug when the explicit ids of the document are
//! distinct, and processing the rendered text again finds the same
//! headings.

use vstd::prelude::*;
use crate::chars::is_white_space;
use crate::text::{
    leading_ws, trailing_ws, lemma_leading_ws, lemma_leading_ws_bound, lemma_trailing_ws,
    lemma_trailing_ws_bound, lemma_trim_end_concat, lemma_trim_trimmed, trim_start, trim_end,
    trim, spec_lines, lines_from, newline_from, lemma_newline_from, line_at, join_lines,
    lemma_lines_of_join,
};
use crate::slug::{spec_slugify, law_slug_shape};
use crate::registry::law_make_unique_fresh;
use crate::toc::{
    LineOutcome, spec_scan_line, scan_from, final_scan, explicit_ids, line_outcome, is_explicit,
    ids_distinct, explicit_ids_distinct, spec_rendered, spec_headings, hash_count,
    lemma_hash_count, spec_parse_atx_heading, last_id_open, lemma_last_id_open,
    spec_split_existing_id, heading_line, opens_fence,
};

verus! {

/// The slug of the heading that a line outcome holds.
pub open spec fn outcome_slug(o: LineOutcome) -> Seq<char> {
    (o.heading->0).2
}

/// The outcome of line `i` of `ls` in the scan of `ls` from the slugs `u`
/// taken.
pub open spec fn outcome_from(u: Set<Seq<char>>, ls: Seq<Seq<char>>, i: int) -> LineOutcome {
    let st = scan_from(u, ls.take(i));
    spec_scan_line(st.fence, st.used, ls[i])
}

/// `{#slug}`, the explicit anchor of a heading.
pub open spec fn anchor(slug: Seq<char>) -> Seq<char> {
    seq!['{', '#'] + slug + seq!['}']
}

/// Whether `s` ends with `suffix`.
pub open spec fn ends_with(s: Seq<char>, suffix: Seq<char>) -> bool {
    suffix.len() <= s.len() && s.skip(s.len() - suffix.len()) == suffix
}

proof fn lemma_hash_count_bound(t: Seq<char>)
    ensures
        hash_count(t) <= t.len(),
    decreases t.len(),
{
    if t.len() > 0 && t[0] == '#' {
        lemma_hash_count_bound(t.drop_first());
    }
}

/// The scan of lines renders each line by its own outcome, and each
/// heading comes from the outcome of one of the lines.
proof fn lemma_scan_structure(u: Set<Seq<char>>, ls: Seq<Seq<char>>)
    ensures
        scan_from(u, ls).out.len() == ls.len(),
        forall|i: int|
            0 <= i < ls.len() ==> scan_from(u, ls).out[i] == #[trigger] outcome_from(u, ls, i).out_line,
        forall|j: int|
            0 <= j < scan_from(u, ls).headings.len() ==> exists|i: int|
                0 <= i < ls.len() && #[trigger] outcome_from(u, ls, i).heading == Some(
                    #[trigger] scan_from(u, ls).headings[j],
                ),
    decreases ls.len(),
{
    if ls.len() > 0 {
        let prev = ls.drop_last();
        lemma_scan_structure(u, prev);
        let n = ls.len() - 1;
        assert(ls.take(n) =~= prev);
        assert forall|i: int| 0 <= i < n implies #[trigger] outcome_from(u, ls, i) == outcome_from(
            u,
            prev,
            i,
        ) by {
            assert(ls.take(i) =~= prev.take(i));
        }
        assert forall|i: int| 0 <= i < ls.len() implies scan_from(u, ls).out[i] == #[trigger] outcome_from(
            u,
            ls,
            i,
        ).out_line by {
            if i < n {
                assert(outcome_from(u, ls, i) == outcome_from(u, prev, i));
            }
        }
        let hs = scan_from(u, ls).headings;
        assert forall|j: int| 0 <= j < hs.len() implies exists|i: int|
            0 <= i < ls.len() && #[trigger] outcome_from(u, ls, i).heading == Some(#[trigger] hs[j]) by {
            if j < scan_from(u, prev).headings.len() {
                let i = choose|i: int|
                    0 <= i < prev.len() && #[trigger] outcome_from(u, prev, i).heading == Some(
                        scan_from(u, prev).headings[j],
                    );
                assert(outcome_from(u, ls, i) == outcome_from(u, prev, i));
                assert(outcome_from(u, ls, i).heading == Some(hs[j]));
            } else {
                assert(outcome_from(u, ls, n).heading == Some(hs[j]));
            }
        }
    }
}

/// What a line does to the fence, whether it holds a heading, and the
/// heading of a line with an explicit id do not depend on the slugs taken.
proof fn lemma_line_indep(fence: Option<char>, u1: Set<Seq<char>>, u2: Set<Seq<char>>, line: Seq<char>)
    ensures
        spec_scan_line(fence, u1, line).fence == spec_scan_line(fence, u2, line).fence,
        spec_scan_line(fence, u1, line).heading is Some <==> spec_scan_line(fence, u2, line).heading is Some,
        is_explicit(spec_scan_line(fence, u1, line)) == is_explicit(spec_scan_line(fence, u2, line)),
        is_explicit(spec_scan_line(fence, u1, line)) ==> spec_scan_line(fence, u1, line).heading
            == spec_scan_line(fence, u2, line).heading,
{
}

/// A line changes the slugs taken only when its heading gets a generated
/// slug: that slug was not taken before and is taken afterwards.
proof fn lemma_line_used(fence: Option<char>, u: Set<Seq<char>>, line: Seq<char>)
    requires
        u.finite(),
    ensures
        spec_scan_line(fence, u, line).used.finite(),
        spec_scan_line(fence, u, line).heading is Some && !is_explicit(spec_scan_line(fence, u, line))
            ==> !u.contains(outcome_slug(spec_scan_line(fence, u, line))) && spec_scan_line(
            fence,
            u,
            line,
        ).used == u.insert(outcome_slug(spec_scan_line(fence, u, line))),
        !(spec_scan_line(fence, u, line).heading is Some && !is_explicit(
            spec_scan_line(fence, u, line),
        )) ==> spec_scan_line(fence, u, line).used == u,
{
    let trimmed = trim_start(line);
    if let Some((level, rest)) = spec_parse_atx_heading(trimmed) {
        let text = trim(spec_split_existing_id(rest).0);
        law_make_unique_fresh(u, spec_slugify(text));
    }
}

/// Scans from different slugs taken go through the same fences and find
/// the same explicit ids.
proof fn lemma_scan_indep(u1: Set<Seq<char>>, u2: Set<Seq<char>>, ls: Seq<Seq<char>>)
    ensures
        scan_from(u1, ls).fence == scan_from(u2, ls).fence,
        scan_from(u1, ls).ids == scan_from(u2, ls).ids,
    decreases ls.len(),
{
    if ls.len() > 0 {
        lemma_scan_indep(u1, u2, ls.drop_last());
        let s1 = scan_from(u1, ls.drop_last());
        let s2 = scan_from(u2, ls.drop_last());
        lemma_line_indep(s1.fence, s1.used, s2.used, ls.last());
    }
}

/// From finitely many slugs taken, a scan takes finitely many slugs, all
/// those it started with among them, and finds finitely many explicit ids.
proof fn lemma_scan_finite(u: Set<Seq<char>>, ls: Seq<Seq<char>>)
    requires
        u.finite(),
    ensures
        scan_from(u, ls).used.finite(),
        scan_from(u, ls).ids.finite(),
        forall|x: Seq<char>| u.contains(x) ==> scan_from(u, ls).used.contains(x),
    decreases ls.len(),
{
    if ls.len() > 0 {
        lemma_scan_finite(u, ls.drop_last());
        let s = scan_from(u, ls.drop_last());
        lemma_line_used(s.fence, s.used, ls.last());
    }
}

/// The explicit ids found in a prefix of the lines are found in all of
/// them.
proof fn lemma_ids_grow(u: Set<Seq<char>>, ls: Seq<Seq<char>>, k: int)
    requires
        0 <= k <= ls.len(),
    ensures
        forall|x: Seq<char>| scan_from(u, ls.take(k)).ids.contains(x) ==> scan_from(u, ls).ids.contains(x),
    decreases ls.len(),
{
    if k == ls.len() {
        assert(ls.take(k) =~= ls);
    } else {
        lemma_ids_grow(u, ls.drop_last(), k);
        assert(ls.drop_last().take(k) =~= ls.take(k));
    }
}

/// What holds after the first `k` lines of the scan that `process` makes,
/// when the explicit ids of the lines are distinct: every slug found is
/// taken, the explicit ids are taken from the start, the slugs found are
/// pairwise different, a slug found is an explicit id found so far or no
/// explicit id at all, and each explicit id found so far is that of one of
/// the first `k` lines.
proof fn lemma_slugs_distinct_prefix(ls: Seq<Seq<char>>, k: int)
    requires
        0 <= k <= ls.len(),
        ids_distinct(ls),
    ensures
        scan_from(explicit_ids(ls), ls.take(k)).used.finite(),
        forall|x: Seq<char>|
            explicit_ids(ls).contains(x) ==> scan_from(explicit_ids(ls), ls.take(k)).used.contains(x),
        forall|a: int|
            0 <= a < scan_from(explicit_ids(ls), ls.take(k)).headings.len() ==> scan_from(
                explicit_ids(ls),
                ls.take(k),
            ).used.contains((#[trigger] scan_from(explicit_ids(ls), ls.take(k)).headings[a]).2),
        forall|a: int, b: int|
            0 <= a < b < scan_from(explicit_ids(ls), ls.take(k)).headings.len() ==> (
            #[trigger] scan_from(explicit_ids(ls), ls.take(k)).headings[a]).2 != (
            #[trigger] scan_from(explicit_ids(ls), ls.take(k)).headings[b]).2,
        forall|a: int|
            0 <= a < scan_from(explicit_ids(ls), ls.take(k)).headings.len() ==> scan_from(
                explicit_ids(ls),
                ls.take(k),
            ).ids.contains((#[trigger] scan_from(explicit_ids(ls), ls.take(k)).headings[a]).2)
                || !explicit_ids(ls).contains(scan_from(explicit_ids(ls), ls.take(k)).headings[a].2),
        forall|x: Seq<char>|
            #[trigger] scan_from(explicit_ids(ls), ls.take(k)).ids.contains(x) ==> exists|i: int|
                0 <= i < k && is_explicit(#[trigger] line_outcome(ls, i)) && outcome_slug(
                    line_outcome(ls, i),
                ) == x,
    decreases k,
{
    let r = explicit_ids(ls);
    if k == 0 {
        assert(ls.take(0) =~= Seq::<Seq<char>>::empty());
        lemma_scan_finite(Set::empty(), ls);
    } else {
        lemma_slugs_distinct_prefix(ls, k - 1);
        let st0 = scan_from(r, ls.take(k - 1));
        let p = ls.take(k);
        assert(p.drop_last() =~= ls.take(k - 1));
        assert(p.last() == ls[k - 1]);
        let o = line_outcome(ls, k - 1);
        assert(o == spec_scan_line(st0.fence, st0.used, ls[k - 1]));
        let st = scan_from(r, p);
        lemma_line_used(st0.fence, st0.used, ls[k - 1]);
        if is_explicit(o) {
            let x = outcome_slug(o);
            let e0 = scan_from(Set::empty(), ls.take(k - 1));
            lemma_scan_indep(r, Set::empty(), ls.take(k - 1));
            lemma_line_indep(st0.fence, st0.used, e0.used, ls[k - 1]);
            assert(scan_from(Set::empty(), p).ids.contains(x));
            lemma_ids_grow(Set::empty(), ls, k);
            assert(r.contains(x));
            if st0.ids.contains(x) {
                let i = choose|i: int|
                    0 <= i < k - 1 && is_explicit(#[trigger] line_outcome(ls, i)) && outcome_slug(
                        line_outcome(ls, i),
                    ) == x;
                assert(is_explicit(line_outcome(ls, k - 1)));
                assert(false);
            }
            assert forall|a: int, b: int|
                0 <= a < b < st.headings.len() implies (#[trigger] st.headings[a]).2 != (
                #[trigger] st.headings[b]).2 by {
                if b == st0.headings.len() {
                    assert(st.headings[a] == st0.headings[a]);
                    assert(st0.ids.contains(st0.headings[a].2) || !r.contains(st0.headings[a].2));
                } else {
                    assert(st.headings[a] == st0.headings[a]);
                    assert(st.headings[b] == st0.headings[b]);
                }
            }
            assert forall|y: Seq<char>| #[trigger] st.ids.contains(y) implies exists|i: int|
                0 <= i < k && is_explicit(#[trigger] line_outcome(ls, i)) && outcome_slug(
                    line_outcome(ls, i),
                ) == y by {
                if y != x {
                    assert(st0.ids.contains(y));
                }
            }
            assert forall|a: int| 0 <= a < st.headings.len() implies st.used.contains(
                (#[trigger] st.headings[a]).2,
            ) by {
                if a < st0.headings.len() {
                    assert(st.headings[a] == st0.headings[a]);
                }
            }
            assert forall|a: int| 0 <= a < st.headings.len() implies st.ids.contains(
                (#[trigger] st.headings[a]).2,
            ) || !r.contains(st.headings[a].2) by {
                if a < st0.headings.len() {
                    assert(st.headings[a] == st0.headings[a]);
                    assert(st0.ids.contains(st0.headings[a].2) || !r.contains(st0.headings[a].2));
                }
            }
        } else if o.heading is Some {
            let g = outcome_slug(o);
            assert forall|a: int, b: int|
                0 <= a < b < st.headings.len() implies (#[trigger] st.headings[a]).2 != (
                #[trigger] st.headings[b]).2 by {
                assert(st.headings[a] == st0.headings[a]);
                if b == st0.headings.len() {
                    assert(st0.used.contains(st0.headings[a].2));
                } else {
                    assert(st.headings[b] == st0.headings[b]);
                }
            }
            assert forall|a: int| 0 <= a < st.headings.len() implies st.used.contains(
                (#[trigger] st.headings[a]).2,
            ) by {
                if a < st0.headings.len() {
                    assert(st.headings[a] == st0.headings[a]);
                }
            }
            assert forall|a: int| 0 <= a < st.headings.len() implies st.ids.contains(
                (#[trigger] st.headings[a]).2,
            ) || !r.contains(st.headings[a].2) by {
                if a < st0.headings.len() {
                    assert(st.headings[a] == st0.headings[a]);
                    assert(st0.ids.contains(st0.headings[a].2) || !r.contains(st0.headings[a].2));
                }
            }
            assert forall|y: Seq<char>| #[trigger] st.ids.contains(y) implies exists|i: int|
                0 <= i < k && is_explicit(#[trigger] line_outcome(ls, i)) && outcome_slug(
                    line_outcome(ls, i),
                ) == y by {
                assert(st0.ids.contains(y));
            }
        } else {
            assert forall|y: Seq<char>| #[trigger] st.ids.contains(y) implies exists|i: int|
                0 <= i < k && is_explicit(#[trigger] line_outcome(ls, i)) && outcome_slug(
                    line_outcome(ls, i),
                ) == y by {
                assert(st0.ids.contains(y));
            }
        }
    }
}

/// When the explicit `{#id}`s written on the heading lines of a document
/// are pairwise different, no two headings of the document share a slug:
/// the explicit ids are taken before any slug is generated, and every slug
/// generated is one not taken before.
pub proof fn law_slugs_distinct(markdown: Seq<char>)
    ensures
        explicit_ids_distinct(markdown) ==> forall|a: int, b: int|
            0 <= a < b < spec_headings(markdown).len() ==> (#[trigger] spec_headings(markdown)[a]).2
                != (#[trigger] spec_headings(markdown)[b]).2,
{
    let ls = spec_lines(markdown);
    if explicit_ids_distinct(markdown) {
        lemma_slugs_distinct_prefix(ls, ls.len() as int);
        assert(ls.take(ls.len() as int) =~= ls);
    }
}

/// A line that gives a heading carries, at its end (before trailing white
/// space), the anchor `{#slug}` of that heading.
proof fn lemma_line_anchor(fence: Option<char>, used: Set<Seq<char>>, line: Seq<char>)
    ensures
        spec_scan_line(fence, used, line).heading matches Some(h) ==> ends_with(
            trim_end(spec_scan_line(fence, used, line).out_line),
            anchor(h.2),
        ),
{
    let o = spec_scan_line(fence, used, line);
    if let Some(h) = o.heading {
        let trimmed = trim_start(line);
        lemma_leading_ws_bound(line);
        lemma_hash_count_bound(trimmed);
        let hc = hash_count(trimmed);
        let rest0 = trimmed.skip(hc as int);
        lemma_leading_ws_bound(rest0);
        let rest = trim_start(rest0);
        let (visible, existing) = spec_split_existing_id(rest);
        match existing {
            Some(id) => {
                let pre = line.take(line.len() - rest.len());
                assert(line =~= pre + rest);
                let t = trim_end(rest);
                let open = last_id_open(t)->0;
                lemma_last_id_open(t);
                assert(t.skip(open) =~= anchor(id));
                lemma_trim_end_concat(pre, rest);
                assert((pre + t).skip((pre + t).len() - anchor(id).len()) =~= anchor(id));
            },
            None => {
                let out = o.out_line;
                assert(out.last() == '}');
                assert(trim_end(out) =~= out);
                assert(out.skip(out.len() - anchor(h.2).len()) =~= anchor(h.2));
            },
        }
    }
}

/// A heading has a level from 1 to 6, text without white space at either
/// end, and a non-empty slug.
proof fn lemma_line_heading_shape(fence: Option<char>, used: Set<Seq<char>>, line: Seq<char>)
    ensures
        spec_scan_line(fence, used, line).heading matches Some(h) ==> {
            &&& 1 <= h.0 <= 6
            &&& leading_ws(h.1) == 0
            &&& trailing_ws(h.1) == 0
            &&& h.2.len() > 0
        },
{
    let o = spec_scan_line(fence, used, line);
    if let Some(h) = o.heading {
        let trimmed = trim_start(line);
        let rest = (spec_parse_atx_heading(trimmed)->0).1;
        let visible = spec_split_existing_id(rest).0;
        lemma_trim_trimmed(visible);
        law_slug_shape(trim(visible));
    }
}

/// Processing keeps the number of lines: the rendered text has one line per
/// line of the document.
pub proof fn law_line_count(markdown: Seq<char>)
    ensures
        final_scan(spec_lines(markdown)).out.len() == spec_lines(markdown).len(),
{
    lemma_scan_structure(explicit_ids(spec_lines(markdown)), spec_lines(markdown));
}

/// A line that is not a heading line is rendered unchanged.
pub proof fn law_plain_lines_unchanged(markdown: Seq<char>, i: int)
    requires
        0 <= i < spec_lines(markdown).len(),
        spec_parse_atx_heading(trim_start(spec_lines(markdown)[i])) is None,
    ensures
        final_scan(spec_lines(markdown)).out[i] == spec_lines(markdown)[i],
        line_outcome(spec_lines(markdown), i).heading is None,
{
    let ls = spec_lines(markdown);
    lemma_scan_structure(explicit_ids(ls), ls);
    assert(line_outcome(ls, i) == outcome_from(explicit_ids(ls), ls, i));
    assert(final_scan(ls).out[i] == line_outcome(ls, i).out_line);
}

/// A line inside a fenced code block is rendered unchanged and is never a
/// heading, whatever it starts with.
pub proof fn law_fenced_lines_unchanged(markdown: Seq<char>, i: int)
    requires
        0 <= i < spec_lines(markdown).len(),
        scan_from(explicit_ids(spec_lines(markdown)), spec_lines(markdown).take(i)).fence is Some,
    ensures
        final_scan(spec_lines(markdown)).out[i] == spec_lines(markdown)[i],
        line_outcome(spec_lines(markdown), i).heading is None,
{
    let ls = spec_lines(markdown);
    lemma_scan_structure(explicit_ids(ls), ls);
    assert(line_outcome(ls, i) == outcome_from(explicit_ids(ls), ls, i));
    assert(final_scan(ls).out[i] == line_outcome(ls, i).out_line);
}

/// Every heading's slug is the anchor written at the end of a line of the
/// rendered text, so that the renderer can scroll to it.
pub proof fn law_heading_anchor_in_rendered(markdown: Seq<char>, j: int)
    requires
        0 <= j < spec_headings(markdown).len(),
    ensures
        exists|i: int|
            0 <= i < final_scan(spec_lines(markdown)).out.len() && ends_with(
                trim_end(#[trigger] final_scan(spec_lines(markdown)).out[i]),
                anchor(spec_headings(markdown)[j].2),
            ),
{
    let ls = spec_lines(markdown);
    lemma_scan_structure(explicit_ids(ls), ls);
    let h = spec_headings(markdown)[j];
    let i = choose|i: int| 0 <= i < ls.len() && #[trigger] outcome_from(explicit_ids(ls), ls, i).heading == Some(h);
    let st = scan_from(explicit_ids(ls), ls.take(i));
    lemma_line_anchor(st.fence, st.used, ls[i]);
    assert(line_outcome(ls, i) == outcome_from(explicit_ids(ls), ls, i));
    assert(final_scan(ls).out[i] == line_outcome(ls, i).out_line);
}

/// Every heading has a level from 1 to 6, text without white space at
/// either end, and a non-empty slug.
pub proof fn law_heading_shape(markdown: Seq<char>, j: int)
    requires
        0 <= j < spec_headings(markdown).len(),
    ensures
        1 <= spec_headings(markdown)[j].0 <= 6,
        leading_ws(spec_headings(markdown)[j].1) == 0,
        trailing_ws(spec_headings(markdown)[j].1) == 0,
        spec_headings(markdown)[j].2.len() > 0,
{
    let ls = spec_lines(markdown);
    lemma_scan_structure(explicit_ids(ls), ls);
    let h = spec_headings(markdown)[j];
    let i = choose|i: int| 0 <= i < ls.len() && #[trigger] outcome_from(explicit_ids(ls), ls, i).heading == Some(h);
    let st = scan_from(explicit_ids(ls), ls.take(i));
    lemma_line_heading_shape(st.fence, st.used, ls[i]);
}

/// Whether no character of `s` is `c`.
pub open spec fn avoids(s: Seq<char>, c: char) -> bool {
    forall|j: int| 0 <= j < s.len() ==> #[trigger] s[j] != c
}

proof fn lemma_avoids_parts(s: Seq<char>, c: char)
    requires
        avoids(s, c),
    ensures
        forall|k: int| 0 <= k <= s.len() ==> #[trigger] avoids(s.skip(k), c),
        forall|k: int| 0 <= k <= s.len() ==> #[trigger] avoids(s.take(k), c),
        forall|a: int, b: int| 0 <= a <= b <= s.len() ==> #[trigger] avoids(s.subrange(a, b), c),
{
    assert forall|k: int| 0 <= k <= s.len() implies #[trigger] avoids(s.skip(k), c) by {
        assert forall|j: int| 0 <= j < s.skip(k).len() implies #[trigger] s.skip(k)[j] != c by {
            assert(s.skip(k)[j] == s[j + k]);
        }
    }
    assert forall|k: int| 0 <= k <= s.len() implies #[trigger] avoids(s.take(k), c) by {
        assert forall|j: int| 0 <= j < s.take(k).len() implies #[trigger] s.take(k)[j] != c by {
            assert(s.take(k)[j] == s[j]);
        }
    }
    assert forall|a: int, b: int| 0 <= a <= b <= s.len() implies #[trigger] avoids(
        s.subrange(a, b),
        c,
    ) by {
        assert forall|j: int| 0 <= j < s.subrange(a, b).len() implies #[trigger] s.subrange(
            a,
            b,
        )[j] != c by {
            assert(s.subrange(a, b)[j] == s[j + a]);
        }
    }
}

proof fn lemma_avoids_trim(s: Seq<char>, c: char)
    requires
        avoids(s, c),
    ensures
        avoids(trim_start(s), c),
        avoids(trim_end(s), c),
        avoids(trim(s), c),
{
    lemma_leading_ws_bound(s);
    lemma_trailing_ws_bound(s);
    lemma_avoids_parts(s, c);
    let t = trim_start(s);
    lemma_trailing_ws_bound(t);
    lemma_avoids_parts(t, c);
}

proof fn lemma_trim_end_len(s: Seq<char>)
    ensures
        trim_end(s).len() <= s.len(),
        trim_start(s).len() <= s.len(),
{
    lemma_trailing_ws_bound(s);
    lemma_leading_ws_bound(s);
}

/// The text of a heading holds no character that its line does not hold.
proof fn lemma_heading_text_avoids(fence: Option<char>, used: Set<Seq<char>>, line: Seq<char>, c: char)
    requires
        avoids(line, c),
    ensures
        spec_scan_line(fence, used, line).heading matches Some(h) ==> avoids(h.1, c),
{
    let trimmed = trim_start(line);
    lemma_avoids_trim(line, c);
    lemma_hash_count_bound(trimmed);
    lemma_avoids_parts(trimmed, c);
    let hc = hash_count(trimmed);
    let rest0 = trimmed.skip(hc as int);
    lemma_avoids_trim(rest0, c);
    let rest = trim_start(rest0);
    let t = trim_end(rest);
    lemma_avoids_trim(rest, c);
    lemma_avoids_parts(t, c);
    lemma_trim_end_len(rest);
    lemma_last_id_open(t);
    if let Some(open) = last_id_open(t) {
        lemma_avoids_trim(t.take(open), c);
    }
    let visible = spec_split_existing_id(rest).0;
    lemma_avoids_trim(visible, c);
}

/// Whether no `{` of `s` is followed by `#`.
pub open spec fn no_id_open(s: Seq<char>) -> bool {
    forall|j: int| 0 <= j < s.len() - 1 ==> !(#[trigger] s[j] == '{' && s[j + 1] == '#')
}

/// The last `{#` of a text that ends with `{#` and then no `{#`.
proof fn lemma_last_id_open_at(x: Seq<char>, y: Seq<char>)
    requires
        no_id_open(y),
    ensures
        last_id_open(x + seq!['{', '#'] + y) == Some(x.len() as int),
    decreases y.len(),
{
    let z = x + seq!['{', '#'] + y;
    if y.len() > 0 {
        assert(z.drop_last() =~= x + seq!['{', '#'] + y.drop_last());
        assert forall|j: int| 0 <= j < y.drop_last().len() - 1 implies !(#[trigger] y.drop_last()[j]
            == '{' && y.drop_last()[j + 1] == '#') by {
            assert(y.drop_last()[j] == y[j]);
            assert(y.drop_last()[j + 1] == y[j + 1]);
        }
        lemma_last_id_open_at(x, y.drop_last());
        if y.len() >= 2 {
            assert(z[z.len() - 2] == y[y.len() - 2]);
            assert(z[z.len() - 1] == y[y.len() - 1]);
        } else {
            assert(z[z.len() - 2] == '#');
        }
    }
}

/// Splitting the explicit id off a text undoes writing ` {#id}` after it:
/// for a text with no trailing white space and a non-empty id with no `{#`
/// in it, the text and the id come back.
pub proof fn law_split_existing_id_undoes_anchor(v: Seq<char>, id: Seq<char>)
    requires
        trailing_ws(v) == 0,
        id.len() > 0,
        no_id_open(id),
    ensures
        spec_split_existing_id(v + seq![' ', '{', '#'] + id + seq!['}']) == (v, Some(id)),
{
    let pre = v + seq![' '];
    let y = id + seq!['}'];
    let r = v + seq![' ', '{', '#'] + id + seq!['}'];
    assert(r =~= pre + seq!['{', '#'] + y);
    lemma_trailing_ws(r, 0);
    assert(trim_end(r) =~= r);
    assert forall|j: int| 0 <= j < y.len() - 1 implies !(#[trigger] y[j] == '{' && y[j + 1] == '#') by {
        assert(y[j] == id[j]);
        if j + 1 < id.len() {
            assert(y[j + 1] == id[j + 1]);
        }
    }
    lemma_last_id_open_at(pre, y);
    assert(r.subrange(pre.len() as int + 2, r.len() - 1) =~= id);
    assert(r.take(pre.len() as int) =~= pre);
    lemma_trailing_ws_bound(v);
    if v.len() > 0 {
        assert(pre[pre.len() - 2] == v.last());
    }
    assert forall|j: int| pre.len() - 1 <= j < pre.len() implies is_white_space(
        #[trigger] pre[j],
    ) by {}
    lemma_trailing_ws(pre, 1);
    assert(pre.take(pre.len() - 1) =~= v);
    assert(trim_end(pre) =~= v);
}

/// The text after the `#` marks of a rendered heading line, once trimmed at
/// the start: the heading text (followed by a space when it is not empty)
/// and the anchor.
pub open spec fn rendered_rest(text: Seq<char>, slug: Seq<char>) -> Seq<char> {
    (if text.len() > 0 {
        text + seq![' ']
    } else {
        Seq::<char>::empty()
    }) + seq!['{', '#'] + slug + seq!['}']
}

proof fn lemma_rendered_trim_start(indent: Seq<char>, level: nat, text: Seq<char>, slug: Seq<char>)
    requires
        level >= 1,
        forall|j: int| 0 <= j < indent.len() ==> is_white_space(#[trigger] indent[j]),
    ensures
        trim_start(heading_line(indent, level, text, slug)) == Seq::new(level, |i: int| '#')
            + seq![' '] + text + seq![' ', '{', '#'] + slug + seq!['}'],
{
    let out = heading_line(indent, level, text, slug);
    let lw = indent.len() as int;
    assert forall|j: int| 0 <= j < lw implies is_white_space(#[trigger] out[j]) by {
        assert(out[j] == indent[j]);
    }
    assert(out[lw] == '#');
    lemma_leading_ws(out, lw);
    assert(out.skip(lw) =~= Seq::new(level, |i: int| '#') + seq![' '] + text + seq![
        ' ',
        '{',
        '#',
    ] + slug + seq!['}']);
}

proof fn lemma_rendered_parse(level: nat, text: Seq<char>, slug: Seq<char>)
    requires
        1 <= level <= 6,
        leading_ws(text) == 0,
    ensures
        spec_parse_atx_heading(
            Seq::new(level, |i: int| '#') + seq![' '] + text + seq![' ', '{', '#'] + slug + seq![
                '}',
            ],
        ) == Some((level, rendered_rest(text, slug))),
{
    let body = Seq::new(level, |i: int| '#') + seq![' '] + text + seq![' ', '{', '#'] + slug
        + seq!['}'];
    assert forall|j: int| 0 <= j < level implies #[trigger] body[j] == '#' by {}
    assert(body[level as int] == ' ');
    lemma_hash_count(body, level as int);
    let rest0 = body.skip(level as int);
    assert(rest0 =~= seq![' '] + text + seq![' ', '{', '#'] + slug + seq!['}']);
    lemma_leading_ws_bound(text);
    if text.len() > 0 {
        assert(rest0[1] == text[0]);
        lemma_leading_ws(rest0, 1);
        assert(rest0.skip(1) =~= rendered_rest(text, slug));
    } else {
        assert(rest0[2] == '{');
        lemma_leading_ws(rest0, 2);
        assert(rest0.skip(2) =~= rendered_rest(text, slug));
    }
}

proof fn lemma_rendered_split(text: Seq<char>, slug: Seq<char>)
    requires
        trailing_ws(text) == 0,
        slug.len() > 0,
        avoids(slug, '{'),
    ensures
        spec_split_existing_id(rendered_rest(text, slug)) == (text, Some(slug)),
{
    let pre = if text.len() > 0 {
        text + seq![' ']
    } else {
        Seq::<char>::empty()
    };
    let r = rendered_rest(text, slug);
    lemma_trailing_ws(r, 0);
    assert(trim_end(r) =~= r);
    let y = slug + seq!['}'];
    assert forall|j: int| 0 <= j < y.len() - 1 implies !(#[trigger] y[j] == '{' && y[j + 1] == '#') by {
        assert(y[j] == slug[j]);
    }
    assert(r =~= pre + seq!['{', '#'] + y);
    lemma_last_id_open_at(pre, y);
    assert(r.subrange(pre.len() as int + 2, r.len() - 1) =~= slug);
    assert(r.take(pre.len() as int) =~= pre);
    lemma_trailing_ws_bound(text);
    if text.len() > 0 {
        assert(pre[pre.len() - 2] == text.last());
        assert forall|j: int| pre.len() - 1 <= j < pre.len() implies is_white_space(
            #[trigger] pre[j],
        ) by {}
        lemma_trailing_ws(pre, 1);
        assert(trim_end(pre) =~= text);
    } else {
        assert(trim_end(pre) =~= text);
    }
}

/// A rendered heading line, scanned outside a fence, gives back its heading.
proof fn lemma_rescan_heading_line(
    used2: Set<Seq<char>>,
    indent: Seq<char>,
    level: nat,
    text: Seq<char>,
    slug: Seq<char>,
)
    requires
        1 <= level <= 6,
        forall|j: int| 0 <= j < indent.len() ==> is_white_space(#[trigger] indent[j]),
        leading_ws(text) == 0,
        trailing_ws(text) == 0,
        slug.len() > 0,
        avoids(slug, '{'),
    ensures
        spec_scan_line(None, used2, heading_line(indent, level, text, slug)).fence is None,
        spec_scan_line(None, used2, heading_line(indent, level, text, slug)).heading == Some(
            (level, text, slug),
        ),
{
    lemma_rendered_trim_start(indent, level, text, slug);
    lemma_rendered_parse(level, text, slug);
    lemma_rendered_split(text, slug);
    lemma_leading_ws(text, 0);
    lemma_trailing_ws(text, 0);
    assert(trim(text) =~= text);
}

/// A line rendered by the scan gives, scanned again with any slugs given
/// out, the same fence and the same heading, when the slug it was given
/// holds no `{`.
proof fn lemma_rescan_line(
    fence: Option<char>,
    used: Set<Seq<char>>,
    used2: Set<Seq<char>>,
    line: Seq<char>,
)
    requires
        spec_scan_line(fence, used, line).base is Some ==> avoids(
            (spec_scan_line(fence, used, line).heading->0).2,
            '{',
        ),
    ensures
        spec_scan_line(fence, used2, spec_scan_line(fence, used, line).out_line).fence
            == spec_scan_line(fence, used, line).fence,
        spec_scan_line(fence, used2, spec_scan_line(fence, used, line).out_line).heading
            == spec_scan_line(fence, used, line).heading,
        spec_scan_line(fence, used, line).base is None ==> spec_scan_line(
            fence,
            used,
            line,
        ).out_line == line,
{
    let o = spec_scan_line(fence, used, line);
    if o.base is Some {
        let trimmed = trim_start(line);
        lemma_leading_ws_bound(line);
        let lw = leading_ws(line) as int;
        let h = o.heading->0;
        let indent = line.take(lw);
        assert(line.take(line.len() - trimmed.len()) =~= indent);
        assert forall|j: int| 0 <= j < indent.len() implies is_white_space(#[trigger] indent[j]) by {
            assert(indent[j] == line[j]);
        }
        lemma_line_heading_shape(fence, used, line);
        lemma_rescan_heading_line(used2, indent, h.0, h.1, h.2);
    }
}

/// An empty line is no heading.
proof fn lemma_empty_line(fence: Option<char>, used: Set<Seq<char>>, line: Seq<char>)
    requires
        line.len() == 0,
    ensures
        spec_scan_line(fence, used, line).heading is None,
{
    assert(trim_start(line) =~= line);
    assert(hash_count(line) == 0);
}

proof fn lemma_lines_avoid_newline(s: Seq<char>, k: int)
    requires
        0 <= k,
    ensures
        forall|i: int| 0 <= i < lines_from(s, k).len() ==> avoids(#[trigger] lines_from(s, k)[i], '\n'),
    decreases s.len() + 1 - k,
{
    if k < s.len() {
        lemma_newline_from(s, k);
        let e = newline_from(s, k);
        lemma_lines_avoid_newline(s, e + 1);
        let raw = s.subrange(k, e);
        assert forall|j: int| 0 <= j < raw.len() implies #[trigger] raw[j] != '\n' by {
            assert(raw[j] == s[k + j]);
        }
        lemma_avoids_parts(raw, '\n');
        assert(avoids(line_at(s, k), '\n')) by {
            if e < s.len() && raw.len() > 0 && raw.last() == '\r' {
                assert(raw.drop_last() =~= raw.take(raw.len() - 1));
            }
        }
        let ls = lines_from(s, k);
        assert forall|i: int| 0 <= i < ls.len() implies avoids(#[trigger] ls[i], '\n') by {
            if i > 0 {
                assert(ls[i] == lines_from(s, e + 1)[i - 1]);
            }
        }
    }
}

/// `l` trimmed at the start, for `l` ending with white space, loses that
/// last character once it is dropped from `l`, unless nothing is left.
proof fn lemma_trim_start_drop_ws(l: Seq<char>)
    requires
        l.len() > 0,
        is_white_space(l.last()),
    ensures
        trim_start(l.drop_last()) == if trim_start(l).len() == 0 {
            trim_start(l)
        } else {
            trim_start(l).drop_last()
        },
        trim_start(l).len() > 0 ==> trim_start(l).last() == l.last() && !is_white_space(
            trim_start(l)[0],
        ),
{
    lemma_leading_ws_bound(l);
    let lw = leading_ws(l) as int;
    let l2 = l.drop_last();
    if lw == l.len() {
        assert forall|j: int| 0 <= j < l2.len() implies is_white_space(#[trigger] l2[j]) by {
            assert(l2[j] == l[j]);
        }
        lemma_leading_ws(l2, l2.len() as int);
        assert(trim_start(l2) =~= trim_start(l));
    } else {
        assert(lw < l.len() - 1);
        assert forall|j: int| 0 <= j < lw implies is_white_space(#[trigger] l2[j]) by {
            assert(l2[j] == l[j]);
        }
        assert(l2[lw] == l[lw]);
        lemma_leading_ws(l2, lw);
        assert(trim_start(l2) =~= trim_start(l).drop_last());
    }
}

/// Dropping a final white space character does not change the text trimmed
/// at the end.
proof fn lemma_trim_end_drop_ws(x: Seq<char>)
    requires
        x.len() > 0,
        is_white_space(x.last()),
    ensures
        trim_end(x.drop_last()) == trim_end(x),
{
    lemma_trailing_ws_bound(x.drop_last());
    assert(trim_end(x.drop_last()) =~= trim_end(x));
}

proof fn lemma_hash_count_props(t: Seq<char>)
    ensures
        hash_count(t) <= t.len(),
        forall|j: int| 0 <= j < hash_count(t) ==> #[trigger] t[j] == '#',
        hash_count(t) < t.len() ==> t[hash_count(t) as int] != '#',
    decreases t.len(),
{
    if t.len() > 0 && t[0] == '#' {
        lemma_hash_count_props(t.drop_first());
        assert forall|j: int| 0 <= j < hash_count(t) implies #[trigger] t[j] == '#' by {
            if j > 0 {
                assert(t[j] == t.drop_first()[j - 1]);
            }
        }
        if hash_count(t) < t.len() {
            assert(t[hash_count(t) as int] == t.drop_first()[hash_count(t) - 1]);
        }
    }
}

/// Whether `line`, trimmed at the start, is one to six `#` and then a
/// carriage return: no heading, but a heading once the carriage return is
/// gone.
pub open spec fn marks_then_cr(line: Seq<char>) -> bool {
    let t = trim_start(line);
    t.len() >= 2 && t.last() == '\r' && 1 <= hash_count(t) <= 6 && hash_count(t) == t.len() - 1
}

/// A line that the scan leaves as it is and that ends with a carriage
/// return gives, without it, the same fence and the same heading, unless it
/// is, outside a fence, one to six `#` and the carriage return.
proof fn lemma_rescan_cr(fence: Option<char>, u1: Set<Seq<char>>, u2: Set<Seq<char>>, l: Seq<char>)
    requires
        l.len() > 0,
        l.last() == '\r',
        spec_scan_line(fence, u1, l).base is None,
        fence is None ==> !marks_then_cr(l),
    ensures
        spec_scan_line(fence, u2, l.drop_last()).fence == spec_scan_line(fence, u1, l).fence,
        spec_scan_line(fence, u2, l.drop_last()).heading == spec_scan_line(fence, u1, l).heading,
{
    let l2 = l.drop_last();
    let t = trim_start(l);
    let t2 = trim_start(l2);
    lemma_trim_start_drop_ws(l);
    if t.len() > 0 {
        assert(t.last() == '\r');
        if t.len() >= 4 {
            assert(t2[0] == t[0] && t2[1] == t[1] && t2[2] == t[2]);
        }
        lemma_hash_count_props(t);
        let h = hash_count(t);
        assert(h < t.len());
        assert forall|j: int| 0 <= j < h implies #[trigger] t2[j] == '#' by {
            assert(t2[j] == t[j]);
        }
        if h < t2.len() {
            assert(t2[h as int] == t[h as int]);
        }
        lemma_hash_count(t2, h as int);
        if fence is None && 1 <= h <= 6 && !opens_fence(t, '`') && !opens_fence(t, '~') {
            let rest = t.skip(h as int);
            let rest2 = t2.skip(h as int);
            assert(rest2 =~= rest.drop_last());
            if rest.len() >= 2 {
                assert(rest2[0] == rest[0]);
            }
            if rest[0] == ' ' {
                assert(rest.len() >= 2);
                lemma_trim_start_drop_ws(rest);
                let r = trim_start(rest);
                let r2 = trim_start(rest2);
                if r.len() > 0 {
                    lemma_trim_end_drop_ws(r);
                    assert(trim_end(r2) == trim_end(r));
                } else {
                    assert(r2 == r);
                }
            }
        }
    } else {
        assert(t2 == t);
    }
}

/// The rendered lines of a document: each is its line's outcome, a line
/// left as it is when no slug was generated for it, no line feed in any,
/// and a rewritten line ends with `}`.
proof fn lemma_rendered_lines(ls: Seq<Seq<char>>)
    requires
        forall|i: int| 0 <= i < ls.len() ==> avoids(#[trigger] ls[i], '\n'),
        forall|i: int|
            0 <= i < ls.len() && (#[trigger] line_outcome(ls, i)).base is Some ==> avoids(
                (line_outcome(ls, i).heading->0).2,
                '\n',
            ) && avoids((line_outcome(ls, i).heading->0).2, '{'),
    ensures
        final_scan(ls).out.len() == ls.len(),
        forall|i: int|
            0 <= i < ls.len() ==> #[trigger] final_scan(ls).out[i] == line_outcome(ls, i).out_line
                && (line_outcome(ls, i).base is None ==> final_scan(ls).out[i] == ls[i]) && (
            line_outcome(ls, i).base is Some ==> final_scan(ls).out[i].len() > 0
                && final_scan(ls).out[i].last() == '}'),
        forall|i: int, j: int|
            0 <= i < final_scan(ls).out.len() && 0 <= j < final_scan(ls).out[i].len()
                ==> #[trigger] final_scan(ls).out[i][j] != '\n',
{
    let n = ls.len() as int;
    let out = final_scan(ls).out;
    lemma_scan_structure(explicit_ids(ls), ls);
    assert forall|i: int| 0 <= i < n implies #[trigger] out[i] == line_outcome(ls, i).out_line
        && (line_outcome(ls, i).base is None ==> out[i] == ls[i]) && avoids(out[i], '\n') && (
    line_outcome(ls, i).base is Some ==> out[i].len() > 0 && out[i].last() == '}') by {
        let st = scan_from(explicit_ids(ls), ls.take(i));
        assert(line_outcome(ls, i) == outcome_from(explicit_ids(ls), ls, i));
        assert(line_outcome(ls, i) == spec_scan_line(st.fence, st.used, ls[i]));
        lemma_rescan_line(st.fence, st.used, st.used, ls[i]);
        assert(avoids(ls[i], '\n'));
        lemma_heading_text_avoids(st.fence, st.used, ls[i], '\n');
        let o = line_outcome(ls, i);
        if o.base is Some {
            let trimmed = trim_start(ls[i]);
            lemma_trim_end_len(ls[i]);
            lemma_avoids_parts(ls[i], '\n');
            let indent = ls[i].take(ls[i].len() - trimmed.len());
            let h = o.heading->0;
            let hashes = Seq::new(h.0, |k: int| '#');
            let x = o.out_line;
            assert(x =~= indent + hashes + seq![' '] + h.1 + seq![' ', '{', '#'] + h.2 + seq!['}']);
            assert forall|j: int| 0 <= j < x.len() implies #[trigger] x[j] != '\n' by {
                let a = indent.len() as int;
                let b = a + hashes.len();
                let c = b + 1 + h.1.len();
                let d = c + 3 + h.2.len();
                if j < a {
                    assert(x[j] == indent[j]);
                } else if j < b {
                    assert(x[j] == '#');
                } else if j == b {
                } else if j < c {
                    assert(x[j] == h.1[j - b - 1]);
                } else if j < c + 3 {
                } else if j < d {
                    assert(x[j] == h.2[j - c - 3]);
                }
            }
        }
    }
    assert forall|i: int, j: int| 0 <= i < out.len() && 0 <= j < out[i].len() implies #[trigger] out[i][j] != '\n' by {
        assert(avoids(out[i], '\n'));
    }
}

/// Each line read back from the rendered text gives, scanned after the
/// same fence with any slugs taken, the fence and heading of its line.
proof fn lemma_read_back(ls: Seq<Seq<char>>)
    requires
        forall|i: int|
            0 <= i < ls.len() - 1 && scan_from(explicit_ids(ls), ls.take(i)).fence is None
                ==> !marks_then_cr(#[trigger] ls[i]),
        forall|i: int|
            0 <= i < ls.len() && (#[trigger] line_outcome(ls, i)).base is Some ==> avoids(
                (line_outcome(ls, i).heading->0).2,
                '{',
            ),
        final_scan(ls).out.len() == ls.len(),
        forall|i: int|
            0 <= i < ls.len() ==> #[trigger] final_scan(ls).out[i] == line_outcome(ls, i).out_line
                && (line_outcome(ls, i).base is None ==> final_scan(ls).out[i] == ls[i]) && (
            line_outcome(ls, i).base is Some ==> final_scan(ls).out[i].len() > 0
                && final_scan(ls).out[i].last() == '}'),
        forall|i: int, j: int|
            0 <= i < final_scan(ls).out.len() && 0 <= j < final_scan(ls).out[i].len()
                ==> #[trigger] final_scan(ls).out[i][j] != '\n',
    ensures
        forall|k: int, u: Set<Seq<char>>|
            0 <= k < spec_lines(join_lines(final_scan(ls).out)).len() ==> #[trigger] spec_scan_line(
                scan_from(explicit_ids(ls), ls.take(k)).fence,
                u,
                spec_lines(join_lines(final_scan(ls).out))[k],
            ).fence == line_outcome(ls, k).fence && spec_scan_line(
                scan_from(explicit_ids(ls), ls.take(k)).fence,
                u,
                spec_lines(join_lines(final_scan(ls).out))[k],
            ).heading == line_outcome(ls, k).heading,
{
    let n = ls.len() as int;
    let out = final_scan(ls).out;
    lemma_lines_of_join(out);
    let ls2 = spec_lines(join_lines(out));
    let m = ls2.len() as int;
    assert forall|k: int, u: Set<Seq<char>>| 0 <= k < m implies #[trigger] spec_scan_line(
        scan_from(explicit_ids(ls), ls.take(k)).fence,
        u,
        ls2[k],
    ).fence == line_outcome(ls, k).fence && spec_scan_line(
        scan_from(explicit_ids(ls), ls.take(k)).fence,
        u,
        ls2[k],
    ).heading == line_outcome(ls, k).heading by {
        let st = scan_from(explicit_ids(ls), ls.take(k));
        assert(line_outcome(ls, k) == spec_scan_line(st.fence, st.used, ls[k]));
        lemma_rescan_line(st.fence, st.used, u, ls[k]);
        assert(out[k] == line_outcome(ls, k).out_line);
        if k < n - 1 && out[k].len() > 0 && out[k].last() == '\r' {
            assert(ls2[k] == out[k].drop_last());
            assert(line_outcome(ls, k).base is None);
            lemma_rescan_cr(st.fence, st.used, u, ls[k]);
        } else {
            assert(ls2[k] == out[k]);
        }
    }
}

/// Processing the rendered text again finds the same headings: every
/// heading line now carries its slug as an explicit id. This holds for
/// documents whose generated slugs hold no `{` nor line feed, and in which
/// no line but the last is, outside a fenced block, one to six `#` followed
/// by a carriage return (`#\r\r\nx` fails: its first line `#\r` is no
/// heading, but once rendered and read again it is `#`, a heading).
pub proof fn law_reprocessing_keeps_headings(markdown: Seq<char>)
    requires
        forall|i: int|
            0 <= i < spec_lines(markdown).len() - 1 && scan_from(
                explicit_ids(spec_lines(markdown)),
                spec_lines(markdown).take(i),
            ).fence is None ==> !marks_then_cr(#[trigger] spec_lines(markdown)[i]),
        forall|i: int|
            0 <= i < spec_lines(markdown).len() && (#[trigger] line_outcome(
                spec_lines(markdown),
                i,
            )).base is Some ==> avoids((line_outcome(spec_lines(markdown), i).heading->0).2, '{')
                && avoids((line_outcome(spec_lines(markdown), i).heading->0).2, '\n'),
    ensures
        spec_headings(spec_rendered(markdown)) == spec_headings(markdown),
{
    let ls = spec_lines(markdown);
    let n = ls.len() as int;
    let out = final_scan(ls).out;
    lemma_lines_avoid_newline(markdown, 0);
    assert forall|i: int| 0 <= i < n implies avoids(#[trigger] ls[i], '\n') by {}
    lemma_rendered_lines(ls);
    lemma_read_back(ls);
    lemma_lines_of_join(out);
    let ls2 = spec_lines(join_lines(out));
    let m = ls2.len() as int;
    lemma_rescan_prefix(ls, ls2, m);
    if m < n {
        assert(ls.take(n) =~= ls);
        assert(ls.take(m + 1) =~= ls);
        assert(ls.take(m + 1).drop_last() =~= ls.take(m));
        let st = scan_from(explicit_ids(ls), ls.take(m));
        assert(out[m] == line_outcome(ls, m).out_line);
        assert(out[m].len() == 0);
        lemma_rescan_line(st.fence, st.used, st.used, ls[m]);
        lemma_empty_line(st.fence, st.used, ls[m]);
        assert(ls2.take(m) =~= ls2);
    } else {
        assert(ls2.take(m) =~= ls2);
        assert(ls.take(n) =~= ls);
    }
}

/// Scanning the first `i` lines read back gives the fence and headings of
/// the first `i` lines.
proof fn lemma_rescan_prefix(ls: Seq<Seq<char>>, ls2: Seq<Seq<char>>, i: int)
    requires
        0 <= i <= ls2.len() <= ls.len(),
        forall|k: int, u: Set<Seq<char>>|
            0 <= k < ls2.len() ==> #[trigger] spec_scan_line(
                scan_from(explicit_ids(ls), ls.take(k)).fence,
                u,
                ls2[k],
            ).fence == line_outcome(ls, k).fence && spec_scan_line(
                scan_from(explicit_ids(ls), ls.take(k)).fence,
                u,
                ls2[k],
            ).heading == line_outcome(ls, k).heading,
    ensures
        scan_from(explicit_ids(ls2), ls2.take(i)).fence == scan_from(explicit_ids(ls), ls.take(i)).fence,
        scan_from(explicit_ids(ls2), ls2.take(i)).headings == scan_from(explicit_ids(ls), ls.take(i)).headings,
    decreases i,
{
    if i > 0 {
        lemma_rescan_prefix(ls, ls2, i - 1);
        assert(ls.take(i).drop_last() =~= ls.take(i - 1));
        assert(ls2.take(i).drop_last() =~= ls2.take(i - 1));
        let st = scan_from(explicit_ids(ls), ls.take(i - 1));
        let st2 = scan_from(explicit_ids(ls2), ls2.take(i - 1));
        assert(line_outcome(ls, i - 1) == spec_scan_line(st.fence, st.used, ls[i - 1]));
        assert(ls2.take(i).last() == ls2[i - 1]);
        assert(spec_scan_line(st.fence, st2.used, ls2[i - 1]).fence == line_outcome(ls, i - 1).fence);
    }
}

/// White space in front of a line does not change it once trimmed at the
/// start.
proof fn lemma_trim_start_ws_prefix(ws: Seq<char>, line: Seq<char>)
    requires
        forall|j: int| 0 <= j < ws.len() ==> is_white_space(#[trigger] ws[j]),
    ensures
        trim_start(ws + line) == trim_start(line),
{
    lemma_leading_ws_bound(line);
    let x = ws + line;
    let k = ws.len() as int + leading_ws(line) as int;
    assert forall|j: int| 0 <= j < k implies is_white_space(#[trigger] x[j]) by {
        if j >= ws.len() {
            assert(x[j] == line[j - ws.len()]);
        }
    }
    if k < x.len() {
        assert(x[k] == line[leading_ws(line) as int]);
    }
    lemma_leading_ws(x, k);
    assert(x.skip(k) =~= line.skip(leading_ws(line) as int));
}

/// Indentation does not matter to fences nor to headings: inside or
/// outside a fence, a line with white space in front of it opens and closes
/// fences as the line alone does, and gives the same heading.
pub proof fn law_fences_ignore_indentation(
    fence: Option<char>,
    u: Set<Seq<char>>,
    ws: Seq<char>,
    line: Seq<char>,
)
    requires
        forall|j: int| 0 <= j < ws.len() ==> is_white_space(#[trigger] ws[j]),
    ensures
        spec_scan_line(fence, u, ws + line).fence == spec_scan_line(fence, u, line).fence,
        spec_scan_line(fence, u, ws + line).heading == spec_scan_line(fence, u, line).heading,
{
    lemma_trim_start_ws_prefix(ws, line);
}

/// Inside a fence opened with the marker `f` (three backticks or three
/// tildes), a line whose text after its leading white space starts with
/// three `f` closes the fence, however it is indented; outside a fence,
/// such a line opens one.
pub proof fn law_fence_marker_line(
    f: char,
    u: Set<Seq<char>>,
    ws: Seq<char>,
    rest: Seq<char>,
)
    requires
        f == '`' || f == '~',
        forall|j: int| 0 <= j < ws.len() ==> is_white_space(#[trigger] ws[j]),
        rest.len() >= 3,
        rest[0] == f,
        rest[1] == f,
        rest[2] == f,
    ensures
        spec_scan_line(Some(f), u, ws + rest).fence is None,
        spec_scan_line(None, u, ws + rest).fence == Some(f),
        spec_scan_line(None, u, ws + rest).heading is None,
{
    lemma_trim_start_ws_prefix(ws, rest);
    lemma_leading_ws(rest, 0);
    assert(rest.skip(0) =~= rest);
}

/// In the scan of a document, a line that closes the open fence leaves the
/// scan outside any fence, whatever lines came before.
pub proof fn law_scan_leaves_fence(
    u: Set<Seq<char>>,
    ls: Seq<Seq<char>>,
    ws: Seq<char>,
    rest: Seq<char>,
)
    requires
        scan_from(u, ls).fence is Some,
        forall|j: int| 0 <= j < ws.len() ==> is_white_space(#[trigger] ws[j]),
        rest.len() >= 3,
        rest[0] == (scan_from(u, ls).fence->0),
        rest[1] == (scan_from(u, ls).fence->0),
        rest[2] == (scan_from(u, ls).fence->0),
    ensures
        scan_from(u, ls.push(ws + rest)).fence is None,
{
    let st = scan_from(u, ls);
    assert(ls.push(ws + rest).drop_last() =~= ls);
    lemma_trim_start_ws_prefix(ws, rest);
    let f = st.fence->0;
    lemma_scan_fences(u, ls);
    law_fence_marker_line(f, st.used, ws, rest);
}

/// The fence open during a scan is always one of the two markers.
proof fn lemma_scan_fences(u: Set<Seq<char>>, ls: Seq<Seq<char>>)
    ensures
        scan_from(u, ls).fence is None || scan_from(u, ls).fence == Some('`')
            || scan_from(u, ls).fence == Some('~'),
    decreases ls.len(),
{
    if ls.len() > 0 {
        lemma_scan_fences(u, ls.drop_last());
    }
}

} // verus!
