//! The table of contents of a Markdown document: its ATX headings, outside
//! fenced code blocks, each with an anchor slug, and the document text with
//! an explicit `{#slug}` anchor written at the end of every heading line that
//! does not carry one yet, so that a renderer can scroll to any heading.

use vstd::prelude::*;
use crate::chars::{chars_of, copy_range, string_from_chars, push_char, push_chars};
use crate::text::{
    trim_start, trim_end, trim, skip_ws, end_without_ws, spec_lines, lines_from,
    lemma_newline_from, join_lines, lemma_join_push, find_newline, line_content_end,
};
use crate::slug::{spec_slugify, slugify};
use crate::registry::{SlugRegistry, spec_make_unique, make_unique};

verus! {

/// A heading of the document, as shown in the table of contents.
#[derive(Clone)]
pub struct Heading {
    /// Heading level (1 for `#`, 2 for `##`, ..., 6 for `######`).
    pub level: usize,
    /// Visible heading text (without the `#` marks and without `{#id}`).
    pub text: String,
    /// Anchor used to scroll to the heading; it is the id written into the
    /// heading's line.
    pub slug: String,
}

impl View for Heading {
    type V = (nat, Seq<char>, Seq<char>);

    open spec fn view(&self) -> (nat, Seq<char>, Seq<char>) {
        (self.level as nat, self.text@, self.slug@)
    }
}

/// The result of processing a document: the text ready to render (with the
/// `{#slug}` anchors written in) and the headings found.
pub struct TocResult {
    pub rendered_markdown: String,
    pub headings: Vec<Heading>,
}

/// Whether `t` starts with three `f` characters (a code fence marker).
pub open spec fn opens_fence(t: Seq<char>, f: char) -> bool {
    t.len() >= 3 && t[0] == f && t[1] == f && t[2] == f
}

/// The number of leading `#` characters of `t`.
pub open spec fn hash_count(t: Seq<char>) -> nat
    decreases t.len(),
{
    if t.len() > 0 && t[0] == '#' {
        1 + hash_count(t.drop_first())
    } else {
        0
    }
}

pub proof fn lemma_hash_count(t: Seq<char>, i: int)
    requires
        0 <= i <= t.len(),
        forall|j: int| 0 <= j < i ==> #[trigger] t[j] == '#',
        i == t.len() || t[i] != '#',
    ensures
        hash_count(t) == i,
    decreases i,
{
    if i > 0 {
        lemma_hash_count(t.drop_first(), i - 1);
    }
}

/// An ATX heading line (already trimmed at the start): one to six `#`,
/// then the end of the line or a space; gives the level and the text after
/// the marks without its leading white space.
pub open spec fn spec_parse_atx_heading(t: Seq<char>) -> Option<(nat, Seq<char>)> {
    let h = hash_count(t);
    if h == 0 || h > 6 {
        None
    } else {
        let rest = t.skip(h as int);
        if rest.len() > 0 && rest[0] != ' ' {
            None
        } else {
            Some((h, trim_start(rest)))
        }
    }
}

/// The position of the last `{#` in `t` (`str::rfind("{#")`).
pub open spec fn last_id_open(t: Seq<char>) -> Option<int>
    decreases t.len(),
{
    if t.len() < 2 {
        None
    } else if t[t.len() - 2] == '{' && t[t.len() - 1] == '#' {
        Some(t.len() - 2)
    } else {
        last_id_open(t.drop_last())
    }
}

pub proof fn lemma_last_id_open(t: Seq<char>)
    ensures
        last_id_open(t) matches Some(o) ==> 0 <= o && o + 1 < t.len() && t[o] == '{' && t[o
            + 1] == '#',
    decreases t.len(),
{
    if t.len() >= 2 && !(t[t.len() - 2] == '{' && t[t.len() - 1] == '#') {
        lemma_last_id_open(t.drop_last());
    }
}

/// Splits an explicit `{#id}` off the end of heading text: when the text,
/// trimmed at the end, ends with `}` and its last `{#` opens a non-empty id,
/// gives the text before it (trimmed at the end) and the id; otherwise the
/// text unchanged and no id.
pub open spec fn spec_split_existing_id(text: Seq<char>) -> (Seq<char>, Option<Seq<char>>) {
    let t = trim_end(text);
    if t.len() > 0 && t.last() == '}' {
        match last_id_open(t) {
            Some(open) => {
                let id = t.subrange(open + 2, t.len() - 1);
                if id.len() > 0 {
                    (trim_end(t.take(open)), Some(id))
                } else {
                    (text, None)
                }
            },
            None => (text, None),
        }
    } else {
        (text, None)
    }
}

/// A heading line with an anchor written in: the indentation, `level` times
/// `#`, a space, the text, a space and `{#slug}`.
pub open spec fn heading_line(indent: Seq<char>, level: nat, text: Seq<char>, slug: Seq<char>) -> Seq<
    char,
> {
    indent + Seq::new(level, |i: int| '#') + seq![' '] + text + seq![' ', '{', '#'] + slug + seq![
        '}',
    ]
}

/// What one line does to the scan of a document.
pub struct LineOutcome {
    /// The code fence open after the line (its marker character), if any.
    pub fence: Option<char>,
    /// The slugs taken after the line.
    pub used: Set<Seq<char>>,
    /// The line as it is rendered.
    pub out_line: Seq<char>,
    /// The heading that the line holds, if any: level, text and slug.
    pub heading: Option<(nat, Seq<char>, Seq<char>)>,
    /// The slug of the heading's text, when the line's slug was given out by
    /// `make_unique` (a heading without an explicit id).
    pub base: Option<Seq<char>>,
}

/// One line of the document: inside a code fence, a line starting (after
/// white space) with the same three marker characters closes it; outside, a
/// line starting with three backticks or three tildes opens one. Otherwise a
/// heading line gives a heading: with an explicit id, the id is its slug and
/// the line stays as it is; without, its text gets a slug of its own and the
/// line is rewritten with that slug written in (a slug that no slug taken
/// before takes: see `spec_make_unique`).
pub open spec fn spec_scan_line(fence: Option<char>, used: Set<Seq<char>>, line: Seq<char>) -> LineOutcome {
    let trimmed = trim_start(line);
    match fence {
        Some(f) => LineOutcome {
            fence: if opens_fence(trimmed, f) {
                None
            } else {
                Some(f)
            },
            used,
            out_line: line,
            heading: None,
            base: None,
        },
        None => {
            if opens_fence(trimmed, '`') {
                LineOutcome { fence: Some('`'), used, out_line: line, heading: None, base: None }
            } else if opens_fence(trimmed, '~') {
                LineOutcome { fence: Some('~'), used, out_line: line, heading: None, base: None }
            } else {
                match spec_parse_atx_heading(trimmed) {
                    None => LineOutcome { fence: None, used, out_line: line, heading: None, base: None },
                    Some((level, rest)) => {
                        let (visible, existing) = spec_split_existing_id(rest);
                        let text = trim(visible);
                        match existing {
                            Some(id) => LineOutcome {
                                fence: None,
                                used,
                                out_line: line,
                                heading: Some((level, text, id)),
                                base: None,
                            },
                            None => {
                                let (slug, used2) = spec_make_unique(used, spec_slugify(text));
                                LineOutcome {
                                    fence: None,
                                    used: used2,
                                    out_line: heading_line(
                                        line.take(line.len() - trimmed.len()),
                                        level,
                                        text,
                                        slug,
                                    ),
                                    heading: Some((level, text, slug)),
                                    base: Some(spec_slugify(text)),
                                }
                            },
                        }
                    },
                }
            }
        },
    }
}

/// The state of a scan over lines of a document.
pub struct ScanModel {
    /// The code fence open, if any.
    pub fence: Option<char>,
    /// The slugs taken.
    pub used: Set<Seq<char>>,
    /// The lines as rendered.
    pub out: Seq<Seq<char>>,
    /// The headings found.
    pub headings: Seq<(nat, Seq<char>, Seq<char>)>,
    /// The explicit ids of the heading lines found.
    pub ids: Set<Seq<char>>,
}

/// Whether a line outcome holds a heading with an explicit id.
pub open spec fn is_explicit(o: LineOutcome) -> bool {
    o.heading is Some && o.base is None
}

/// The scan of a sequence of lines, from no fence, no output and the slugs
/// `init` taken.
pub open spec fn scan_from(init: Set<Seq<char>>, ls: Seq<Seq<char>>) -> ScanModel
    decreases ls.len(),
{
    if ls.len() == 0 {
        ScanModel {
            fence: None,
            used: init,
            out: Seq::empty(),
            headings: Seq::empty(),
            ids: Set::empty(),
        }
    } else {
        let st = scan_from(init, ls.drop_last());
        let o = spec_scan_line(st.fence, st.used, ls.last());
        ScanModel {
            fence: o.fence,
            used: o.used,
            out: st.out.push(o.out_line),
            headings: match o.heading {
                Some(h) => st.headings.push(h),
                None => st.headings,
            },
            ids: if is_explicit(o) {
                st.ids.insert((o.heading->0).2)
            } else {
                st.ids
            },
        }
    }
}

/// The explicit ids written on the heading lines of a document (outside
/// fenced code).
pub open spec fn explicit_ids(ls: Seq<Seq<char>>) -> Set<Seq<char>> {
    scan_from(Set::empty(), ls).ids
}

/// The scan of a document's lines that `process` makes: with its explicit
/// ids taken from the start, so that no generated slug meets one of them.
pub open spec fn final_scan(ls: Seq<Seq<char>>) -> ScanModel {
    scan_from(explicit_ids(ls), ls)
}

/// The text that `process` renders for a document: its lines, as scanned,
/// joined with `\n`.
pub open spec fn spec_rendered(markdown: Seq<char>) -> Seq<char> {
    join_lines(final_scan(spec_lines(markdown)).out)
}

/// The headings that `process` finds in a document, in order.
pub open spec fn spec_headings(markdown: Seq<char>) -> Seq<(nat, Seq<char>, Seq<char>)> {
    final_scan(spec_lines(markdown)).headings
}

/// The outcome of line `i` of `ls` in the scan that `process` makes.
pub open spec fn line_outcome(ls: Seq<Seq<char>>, i: int) -> LineOutcome {
    let st = scan_from(explicit_ids(ls), ls.take(i));
    spec_scan_line(st.fence, st.used, ls[i])
}

/// Whether the explicit ids written on heading lines (outside fenced code)
/// are pairwise different.
pub open spec fn ids_distinct(ls: Seq<Seq<char>>) -> bool {
    forall|i: int, j: int|
        0 <= i < j < ls.len() && is_explicit(#[trigger] line_outcome(ls, i)) && is_explicit(
            #[trigger] line_outcome(ls, j),
        ) ==> (line_outcome(ls, i).heading->0).2 != (line_outcome(ls, j).heading->0).2
}

/// Whether the explicit ids written on the heading lines of a document are
/// pairwise different.
pub open spec fn explicit_ids_distinct(markdown: Seq<char>) -> bool {
    ids_distinct(spec_lines(markdown))
}

/// Recognises an ATX heading in a line trimmed at the start: gives its level
/// and where the heading text (without leading white space) starts.
pub fn parse_atx_heading(trimmed: &[char]) -> (r: Option<(usize, usize)>)
    ensures
        r is None <==> spec_parse_atx_heading(trimmed@) is None,
        r matches Some((level, start)) ==> start <= trimmed@.len() && spec_parse_atx_heading(
            trimmed@,
        ) == Some((level as nat, trimmed@.skip(start as int))),
{
    let n = trimmed.len();
    let mut hashes: usize = 0;
    while hashes < n && trimmed[hashes] == '#'
        invariant
            hashes <= n == trimmed@.len(),
            forall|j: int| 0 <= j < hashes ==> #[trigger] trimmed@[j] == '#',
        decreases n - hashes,
    {
        hashes = hashes + 1;
    }
    proof {
        lemma_hash_count(trimmed@, hashes as int);
    }
    if hashes == 0 || hashes > 6 {
        return None;
    }
    if hashes < n && trimmed[hashes] != ' ' {
        assert(trimmed@.skip(hashes as int)[0] == trimmed@[hashes as int]);
        return None;
    }
    let start = skip_ws(trimmed, hashes);
    Some((hashes, start))
}

/// The position of the last `{#` in `v[..end]`.
fn rfind_id_open(v: &[char], end: usize) -> (r: Option<usize>)
    requires
        end <= v@.len(),
    ensures
        match r {
            Some(o) => last_id_open(v@.take(end as int)) == Some(o as int),
            None => last_id_open(v@.take(end as int)) is None,
        },
{
    let mut i = end;
    while i >= 2
        invariant
            i <= end <= v@.len(),
            last_id_open(v@.take(end as int)) == last_id_open(v@.take(i as int)),
        decreases i,
    {
        if v[i - 2] == '{' && v[i - 1] == '#' {
            return Some(i - 2);
        }
        assert(v@.take(i as int).drop_last() =~= v@.take(i - 1));
        i = i - 1;
    }
    None
}

/// Separates an explicit `{#id}` from the end of heading text (see
/// `spec_split_existing_id`).
pub fn split_existing_id(text: &[char]) -> (r: (Vec<char>, Option<Vec<char>>))
    ensures
        r.0@ == spec_split_existing_id(text@).0,
        match r.1 {
            Some(id) => spec_split_existing_id(text@).1 == Some(id@),
            None => spec_split_existing_id(text@).1 is None,
        },
{
    let n = text.len();
    let tl = end_without_ws(text, n);
    assert(text@.take(n as int) =~= text@);
    let ghost t = text@.take(tl as int);
    if tl > 0 && text[tl - 1] == '}' {
        match rfind_id_open(text, tl) {
            Some(open) => {
                proof {
                    lemma_last_id_open(t);
                }
                if open + 2 < tl - 1 {
                    let id = copy_range(text, open + 2, tl - 1);
                    let vend = end_without_ws(text, open);
                    assert(t.take(open as int) =~= text@.take(open as int));
                    assert(id@ =~= t.subrange(open + 2, t.len() - 1));
                    let visible = copy_range(text, 0, vend);
                    assert(visible@ =~= text@.take(vend as int));
                    return (visible, Some(id));
                }
            },
            None => {},
        }
    }
    let whole = copy_range(text, 0, n);
    assert(whole@ =~= text@);
    (whole, None)
}

/// Whether `v[t..]` starts with three `f` characters.
fn opens_fence_at(v: &[char], t: usize, f: char) -> (r: bool)
    requires
        t <= v@.len(),
    ensures
        r == opens_fence(v@.skip(t as int), f),
{
    v.len() >= 3 && t <= v.len() - 3 && v[t] == f && v[t + 1] == f && v[t + 2] == f
}

/// The heading (level, text, slug) that a line outcome records, if any.
pub open spec fn heading_view(h: Option<Heading>) -> Option<(nat, Seq<char>, Seq<char>)> {
    match h {
        Some(h) => Some(h@),
        None => None,
    }
}

/// Appends the characters `s` to `v`.
fn push_all(v: &mut Vec<char>, s: &[char])
    ensures
        final(v)@ == old(v)@ + s@,
{
    let n = s.len();
    let mut j: usize = 0;
    while j < n
        invariant
            n == s@.len(),
            j <= n,
            v@ == old(v)@ + s@.take(j as int),
        decreases n - j,
    {
        v.push(s[j]);
        assert(s@.take(j as int).push(s@[j as int]) =~= s@.take(j + 1));
        j = j + 1;
    }
    assert(s@.take(n as int) =~= s@);
}

/// `v` without leading and trailing white space.
fn trim_chars(v: &[char]) -> (r: Vec<char>)
    ensures
        r@ == trim(v@),
{
    let vs = skip_ws(v, 0);
    assert(v@.skip(0) =~= v@);
    let after = copy_range(v, vs, v.len());
    assert(after@ =~= v@.skip(vs as int));
    let ve = end_without_ws(after.as_slice(), after.len());
    assert(after@.take(after@.len() as int) =~= after@);
    let r = copy_range(after.as_slice(), 0, ve);
    assert(r@ =~= after@.take(ve as int));
    r
}

/// Builds a heading line with its anchor (see `heading_line`).
fn write_heading_line(indent: &[char], level: usize, text: &[char], slug: &[char]) -> (r: Vec<
    char,
>)
    ensures
        r@ == heading_line(indent@, level as nat, text@, slug@),
{
    let mut out: Vec<char> = Vec::new();
    push_all(&mut out, indent);
    let mut k: usize = 0;
    while k < level
        invariant
            k <= level,
            out@ == indent@ + Seq::new(k as nat, |i: int| '#'),
        decreases level - k,
    {
        out.push('#');
        assert(indent@ + Seq::new((k + 1) as nat, |i: int| '#') =~= (indent@ + Seq::new(
            k as nat,
            |i: int| '#',
        )).push('#'));
        k = k + 1;
    }
    out.push(' ');
    push_all(&mut out, text);
    out.push(' ');
    out.push('{');
    out.push('#');
    push_all(&mut out, slug);
    out.push('}');
    assert(out@ =~= heading_line(indent@, level as nat, text@, slug@));
    out
}

/// Processes one line of the document (see `spec_scan_line`): updates the
/// open fence and the slugs given out, and gives the rendered line and the
/// heading it holds.
fn scan_line(line: &[char], fence: &mut Option<char>, used: &mut SlugRegistry) -> (r: (
    Vec<char>,
    Option<Heading>,
    bool,
))
    requires
        old(used).wf(),
    ensures
        r.2 == is_explicit(spec_scan_line(*old(fence), old(used)@, line@)),
        final(used).wf(),
        *final(fence) == spec_scan_line(*old(fence), old(used)@, line@).fence,
        final(used)@ == spec_scan_line(*old(fence), old(used)@, line@).used,
        r.0@ == spec_scan_line(*old(fence), old(used)@, line@).out_line,
        heading_view(r.1) == spec_scan_line(*old(fence), old(used)@, line@).heading,
{
    let n = line.len();
    let t = skip_ws(line, 0);
    assert(line@.skip(0) =~= line@);
    let whole = copy_range(line, 0, n);
    assert(whole@ =~= line@);
    match *fence {
        Some(f) => {
            if opens_fence_at(line, t, f) {
                *fence = None;
            }
            return (whole, None, false);
        },
        None => {},
    }
    if opens_fence_at(line, t, '`') {
        *fence = Some('`');
        return (whole, None, false);
    }
    if opens_fence_at(line, t, '~') {
        *fence = Some('~');
        return (whole, None, false);
    }
    let trimmed = copy_range(line, t, n);
    assert(trimmed@ =~= line@.skip(t as int));
    match parse_atx_heading(trimmed.as_slice()) {
        None => (whole, None, false),
        Some((level, rest_start)) => {
            let rest = copy_range(trimmed.as_slice(), rest_start, trimmed.len());
            assert(rest@ =~= trimmed@.skip(rest_start as int));
            let (visible, existing) = split_existing_id(rest.as_slice());
            let text_chars = trim_chars(visible.as_slice());
            let text = string_from_chars(text_chars.as_slice());
            match existing {
                Some(id) => {
                    let slug = string_from_chars(id.as_slice());
                    (whole, Some(Heading { level, text, slug }), true)
                },
                None => {
                    let base = slugify(text.as_str());
                    let unique = make_unique(base.as_str(), used);
                    let indent = copy_range(line, 0, t);
                    let slug_chars = chars_of(unique.as_str());
                    let out = write_heading_line(
                        indent.as_slice(),
                        level,
                        text_chars.as_slice(),
                        slug_chars.as_slice(),
                    );
                    assert(line@.take(line@.len() - trimmed@.len()) =~= indent@);
                    (out, Some(Heading { level, text, slug: unique }), false)
                },
            }
        },
    }
}

/// Scans the lines of a document (see `scan_from`), with the slugs taken
/// in `used` at the start: gives the rendered text, the headings, the
/// explicit ids found and the slugs taken at the end.
fn scan_document(cs: &Vec<char>, used: SlugRegistry) -> (r: (
    String,
    Vec<Heading>,
    Vec<String>,
    SlugRegistry,
))
    requires
        used.wf(),
    ensures
        r.0@ == join_lines(scan_from(used@, spec_lines(cs@)).out),
        r.1@.map_values(|h: Heading| h@) == scan_from(used@, spec_lines(cs@)).headings,
        r.2@.map_values(|s: String| s@).to_set() == scan_from(used@, spec_lines(cs@)).ids,
        r.3.wf(),
        r.3@ == scan_from(used@, spec_lines(cs@)).used,
{
    let ghost init = used@;
    let mut used = used;
    let n = cs.len();
    let mut fence: Option<char> = None;
    let mut headings: Vec<Heading> = Vec::new();
    let mut ids: Vec<String> = Vec::new();
    let mut rendered = String::new();
    let ghost mut done: Seq<Seq<char>> = Seq::empty();
    let mut pos: usize = 0;
    assert(done + lines_from(cs@, 0) =~= spec_lines(cs@));
    assert(ids@.map_values(|s: String| s@).to_set() =~= Set::<Seq<char>>::empty());
    while pos < n
        invariant
            n == cs@.len(),
            pos <= n,
            spec_lines(cs@) == done + lines_from(cs@, pos as int),
            scan_from(init, done).fence == fence,
            scan_from(init, done).used == used@,
            scan_from(init, done).headings == headings@.map_values(|h: Heading| h@),
            scan_from(init, done).ids == ids@.map_values(|s: String| s@).to_set(),
            join_lines(scan_from(init, done).out) == rendered@,
            scan_from(init, done).out.len() == done.len(),
            done.len() == 0 <==> pos == 0,
            used.wf(),
        decreases n - pos,
    {
        let e = find_newline(cs.as_slice(), pos);
        let ce = line_content_end(cs.as_slice(), pos, e);
        let line = copy_range(cs.as_slice(), pos, ce);
        let ghost prev = scan_from(init, done);
        let (out_line, heading, explicit) = scan_line(line.as_slice(), &mut fence, &mut used);
        proof {
            lemma_join_push(prev.out, out_line@);
            let next_done = done.push(line@);
            assert(next_done.drop_last() =~= done);
            assert(lines_from(cs@, pos as int) =~= seq![line@] + lines_from(cs@, e + 1));
            assert(spec_lines(cs@) =~= next_done + lines_from(cs@, e + 1));
            done = next_done;
        }
        if pos > 0 {
            push_char(&mut rendered, '\n');
        }
        push_chars(&mut rendered, out_line.as_slice());
        match heading {
            Some(h) => {
                if explicit {
                    let ghost old_ids = ids@;
                    ids.push(h.slug.clone());
                    proof {
                        let f = |s: String| s@;
                        assert(ids@.map_values(f) =~= old_ids.map_values(f).push(h.slug@));
                        old_ids.map_values(f).lemma_push_to_set_commute(h.slug@);
                    }
                }
                let ghost hs = headings@;
                headings.push(h);
                assert(headings@.map_values(|h: Heading| h@) =~= hs.map_values(|h: Heading| h@).push(
                    h@,
                ));
            },
            None => {},
        }
        proof {
            lemma_newline_from(cs@, pos as int);
        }
        if e < n {
            pos = e + 1;
        } else {
            assert(lines_from(cs@, e + 1) =~= lines_from(cs@, n as int));
            pos = n;
        }
    }
    assert(lines_from(cs@, pos as int) =~= Seq::<Seq<char>>::empty());
    assert(done =~= spec_lines(cs@));
    (rendered, headings, ids, used)
}

/// Processes a Markdown document: finds its headings and writes an
/// explicit `{#slug}` anchor at the end of every heading line that has none.
///
/// Fenced code blocks (opened by three backticks or three tildes) are left
/// alone, so that lines starting with `#` in code are not taken for headings.
/// The explicit ids of the document are reserved first, and each generated
/// slug is one that no slug before takes, so that every anchor is unique
/// when the explicit ids are.
pub fn process(markdown: &str) -> (r: TocResult)
    ensures
        r.rendered_markdown@ == spec_rendered(markdown@),
        r.headings@.map_values(|h: Heading| h@) == spec_headings(markdown@),
        explicit_ids_distinct(markdown@) ==> forall|a: int, b: int|
            0 <= a < b < r.headings@.len() ==> r.headings@[a].slug@ != r.headings@[b].slug@,
{
    let cs = chars_of(markdown);
    let (_, _, ids, _) = scan_document(&cs, SlugRegistry::new());
    let mut reserved = SlugRegistry::new();
    let mut k: usize = 0;
    while k < ids.len()
        invariant
            k <= ids@.len(),
            reserved.wf(),
            reserved@ == ids@.map_values(|s: String| s@).take(k as int).to_set(),
        decreases ids@.len() - k,
    {
        reserved.reserve(ids[k].as_str());
        proof {
            let m = ids@.map_values(|s: String| s@);
            assert(m[k as int] == ids@[k as int]@);
            assert(m.take(k as int + 1) =~= m.take(k as int).push(ids@[k as int]@));
            m.take(k as int).lemma_push_to_set_commute(ids@[k as int]@);
        }
        k = k + 1;
    }
    assert(ids@.map_values(|s: String| s@).take(ids@.len() as int) =~= ids@.map_values(|s: String| s@));
    let (rendered, headings, _, _) = scan_document(&cs, reserved);
    proof {
        crate::toc_laws::law_slugs_distinct(markdown@);
        let hs = spec_headings(markdown@);
        assert forall|a: int, b: int|
            explicit_ids_distinct(markdown@) && 0 <= a < b < headings@.len() implies headings@[a].slug@
            != headings@[b].slug@ by {
            assert(headings@.map_values(|h: Heading| h@)[a] == headings@[a]@);
            assert(headings@.map_values(|h: Heading| h@)[b] == headings@[b]@);
            assert(hs[a] == headings@[a]@);
            assert(hs[b] == headings@[b]@);
            assert(hs[a].2 != hs[b].2);
        }
    }
    TocResult { rendered_markdown: rendered, headings }
}

} // verus!
