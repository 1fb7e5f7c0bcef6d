//! Output styles: region replacement in a base system prompt.
//!
//! A style names up to five regions of the base prompt (found by their
//! headings) and replaces, extends or removes each of them.

use vstd::prelude::*;

use crate::text::{
    chars_eq_ignore_ascii_case, eq_ignore_ascii_case, trim, trim_end_len, trim_start_count,
    trim_start_length, chars_match_at, str_equal, chars_of, extend_all, extend_range, find_chars, find_from, is_blank,
    is_blank_chars, lemma_find_from, matches_at, string_of, trim_end, trim_end_length,
};

verus! {

/// How a region of the base prompt is changed.
#[derive(Debug, Clone, Copy, PartialEq, Eq, Structural)]
pub enum Mode {
    Replace,
    Merge,
    Disable,
}

impl Default for Mode {
    fn default() -> (m: Self)
        ensures
            m == Mode::Replace,
    {
        Mode::Replace
    }
}

/// The change asked for one region.
#[derive(Debug)]
pub struct RegionSpec {
    pub mode: Mode,
    pub text: String,
}

/// The regions a style may change.
#[derive(Debug)]
pub struct Regions {
    pub personality: Option<RegionSpec>,
    pub presentation: Option<RegionSpec>,
    pub preambles: Option<RegionSpec>,
    pub planning: Option<RegionSpec>,
    pub progress: Option<RegionSpec>,
}

impl Default for Regions {
    fn default() -> (r: Self)
        ensures
            r.personality is None,
            r.presentation is None,
            r.preambles is None,
            r.planning is None,
            r.progress is None,
    {
        Regions { personality: None, presentation: None, preambles: None, planning: None, progress: None }
    }
}

/// A heading that overrides the default heading of a region.
#[derive(Debug)]
pub struct Selector {
    pub heading: Option<String>,
}

/// Optional heading overrides, one per region.
#[derive(Debug)]
pub struct Selectors {
    pub personality: Option<Selector>,
    pub presentation: Option<Selector>,
    pub preambles: Option<Selector>,
    pub planning: Option<Selector>,
    pub progress: Option<Selector>,
}

impl Default for Selectors {
    fn default() -> (r: Self)
        ensures
            r.personality is None,
            r.presentation is None,
            r.preambles is None,
            r.planning is None,
            r.progress is None,
    {
        Selectors { personality: None, presentation: None, preambles: None, planning: None, progress: None }
    }
}

/// A style document.
#[derive(Debug)]
pub struct StyleDoc {
    pub kind: String,
    pub version: u32,
    pub regions: Regions,
    pub selectors: Option<Selectors>,
}

// ---------------------------------------------------------------------------
// Specification
// ---------------------------------------------------------------------------

pub open spec fn newline() -> Seq<char> {
    seq!['\n']
}

pub open spec fn blank_line() -> Seq<char> {
    seq!['\n', '\n']
}

/// Where the section under `heading` starts: at the very beginning when the
/// text opens with the heading line, else just after the first newline that
/// is followed by the heading line.
pub open spec fn section_start(base: Seq<char>, heading: Seq<char>) -> Option<int> {
    if matches_at(base, heading + newline(), 0) {
        Some(0)
    } else {
        match find_from(base, newline() + heading + newline(), 0) {
            Some(p) => Some(p + 1),
            None => None,
        }
    }
}

/// Index just past the first newline at or after `from` (or `from` itself
/// when there is none).
pub open spec fn line_after(base: Seq<char>, from: int) -> int {
    match find_from(base, newline(), from) {
        Some(q) => q + 1,
        None => from,
    }
}

/// Where the section whose content starts at `from` ends: just after the
/// newline of the earliest marker found at or after `from`, or the end of
/// the text.
pub open spec fn section_end(base: Seq<char>, markers: Seq<Seq<char>>, from: int) -> int
    decreases markers.len(),
{
    if markers.len() == 0 {
        base.len() as int
    } else {
        let prev = section_end(base, markers.drop_last(), from);
        match find_from(base, markers.last(), from) {
            Some(p) => if p + 1 < prev {
                p + 1
            } else {
                prev
            },
            None => prev,
        }
    }
}

/// The range `(start, end)` of the section under `heading`.
pub open spec fn section_range(base: Seq<char>, heading: Seq<char>, markers: Seq<Seq<char>>) -> Option<(int, int)> {
    match section_start(base, heading) {
        Some(start) => Some((start, section_end(base, markers, line_after(base, start + heading.len())))),
        None => None,
    }
}

/// Index of the first character at or after `j` that is not a newline.
pub open spec fn skip_newlines(s: Seq<char>, j: int) -> int
    decreases s.len() - j,
{
    if 0 <= j < s.len() && s[j] == '\n' {
        skip_newlines(s, j + 1)
    } else {
        j
    }
}

/// Length of `s` once trailing newlines are removed.
pub open spec fn trim_newlines_len(s: Seq<char>) -> nat
    decreases s.len(),
{
    if s.len() > 0 && s.last() == '\n' {
        trim_newlines_len(s.drop_last())
    } else {
        s.len()
    }
}

/// `base` with `base[start..end]` replaced by the heading, a blank line, the
/// text without trailing white space, and one blank line before what follows.
pub open spec fn replaced_section(base: Seq<char>, start: int, end: int, heading: Seq<char>, text: Seq<char>) -> Seq<char> {
    base.take(start) + heading + blank_line() + trim_end(text) + blank_line() + base.skip(
        skip_newlines(base, end),
    )
}

/// `base` with `text` appended to the section content that ends at `end`:
/// the content loses its trailing newlines, then come a blank line and the
/// text without trailing white space. When more of the prompt follows, one
/// blank line separates it, and it is kept from its first character that is
/// not a newline; when nothing follows, the prompt ends with one newline.
/// A blank `text` leaves `base` as it is.
pub open spec fn merged_section(base: Seq<char>, end: int, text: Seq<char>) -> Seq<char> {
    if is_blank(text) {
        base
    } else {
        let kept = base.take(end);
        let j = skip_newlines(base, end);
        kept.take(trim_newlines_len(kept) as int) + blank_line() + trim_end(text) + (if j < base.len() {
            blank_line() + base.skip(j)
        } else {
            newline()
        })
    }
}

/// `base` without `base[start..end]`, the newlines around the cut removed and
/// a single blank line put between what remains on both sides.
pub open spec fn removed_section(base: Seq<char>, start: int, end: int) -> Seq<char> {
    let prefix = base.take(start).take(trim_newlines_len(base.take(start)) as int);
    let suffix = base.skip(skip_newlines(base, end));
    prefix + (if prefix.len() > 0 && suffix.len() > 0 {
        blank_line()
    } else {
        Seq::empty()
    }) + suffix
}

/// One region applied to `base`. When the heading is not found, a replace or
/// merge with text that is not blank appends a new section at the end.
pub open spec fn apply_region_spec(base: Seq<char>, mode: Mode, text: Seq<char>, heading: Seq<char>, markers: Seq<Seq<char>>) -> Seq<char> {
    match section_range(base, heading, markers) {
        Some((start, end)) => match mode {
            Mode::Replace => replaced_section(base, start, end, heading, text),
            Mode::Merge => merged_section(base, end, text),
            Mode::Disable => removed_section(base, start, end),
        },
        None => if mode != Mode::Disable && !is_blank(text) {
            base + blank_line() + heading + blank_line() + text + newline()
        } else {
            base
        },
    }
}

pub open spec fn selector_heading(selector: Option<Selector>) -> Option<Seq<char>> {
    match selector {
        Some(sel) => match sel.heading {
            Some(h) => Some(h@),
            None => None,
        },
        None => None,
    }
}

/// A region step: nothing when the region is absent.
pub open spec fn region_step(base: Seq<char>, region: Option<RegionSpec>, selected: Option<Seq<char>>, default_heading: Seq<char>, markers: Seq<Seq<char>>) -> Seq<char> {
    match region {
        Some(spec) => apply_region_spec(
            base,
            spec.mode,
            spec.text@,
            match selected {
                Some(h) => h,
                None => default_heading,
            },
            markers,
        ),
        None => base,
    }
}

pub open spec fn h2_markers() -> Seq<Seq<char>> {
    seq!["\n## "@]
}

pub open spec fn h3_markers() -> Seq<Seq<char>> {
    seq!["\n### "@, "\n## "@]
}

pub open spec fn selected_personality(doc: StyleDoc) -> Option<Seq<char>> {
    match doc.selectors {
        Some(s) => selector_heading(s.personality),
        None => None,
    }
}

pub open spec fn selected_presentation(doc: StyleDoc) -> Option<Seq<char>> {
    match doc.selectors {
        Some(s) => selector_heading(s.presentation),
        None => None,
    }
}

pub open spec fn selected_preambles(doc: StyleDoc) -> Option<Seq<char>> {
    match doc.selectors {
        Some(s) => selector_heading(s.preambles),
        None => None,
    }
}

pub open spec fn selected_planning(doc: StyleDoc) -> Option<Seq<char>> {
    match doc.selectors {
        Some(s) => selector_heading(s.planning),
        None => None,
    }
}

pub open spec fn selected_progress(doc: StyleDoc) -> Option<Seq<char>> {
    match doc.selectors {
        Some(s) => selector_heading(s.progress),
        None => None,
    }
}

/// The document is a style this engine applies.
pub open spec fn is_codex_style(doc: StyleDoc) -> bool {
    doc.kind@ == "codex-style"@ && doc.version == 1
}

/// The base prompt with the document's regions applied, in the fixed order
/// personality, presentation, preambles, planning, progress.
pub open spec fn styled_prompt(base: Seq<char>, doc: StyleDoc) -> Seq<char> {
    let s1 = region_step(base, doc.regions.personality, selected_personality(doc), "## Personality"@, h2_markers());
    let s2 = region_step(s1, doc.regions.presentation, selected_presentation(doc), "## Presenting your work and final message"@, h2_markers());
    let s3 = region_step(s2, doc.regions.preambles, selected_preambles(doc), "### Preamble messages"@, h3_markers());
    let s4 = region_step(s3, doc.regions.planning, selected_planning(doc), "## Planning"@, h2_markers());
    region_step(s4, doc.regions.progress, selected_progress(doc), "## Sharing progress updates"@, h2_markers())
}

// ---------------------------------------------------------------------------
// Lemmas
// ---------------------------------------------------------------------------

proof fn lemma_section_end_bounds(base: Seq<char>, markers: Seq<Seq<char>>, from: int)
    requires
        0 <= from <= base.len(),
    ensures
        from <= section_end(base, markers, from) <= base.len(),
    decreases markers.len(),
{
    if markers.len() > 0 {
        lemma_section_end_bounds(base, markers.drop_last(), from);
        lemma_find_from(base, markers.last(), from);
    }
}

proof fn lemma_line_after_bounds(base: Seq<char>, from: int)
    requires
        0 <= from <= base.len(),
    ensures
        from <= line_after(base, from) <= base.len(),
{
    lemma_find_from(base, newline(), from);
}

/// The range found for a heading lies inside the text and contains the
/// heading line.
proof fn lemma_section_range_bounds(base: Seq<char>, heading: Seq<char>, markers: Seq<Seq<char>>)
    ensures
        section_range(base, heading, markers) matches Some((start, end)) ==> {
            &&& 0 <= start
            &&& start + heading.len() < base.len()
            &&& start + heading.len() <= line_after(base, start + heading.len()) <= end
            &&& end <= base.len()
        },
{
    lemma_find_from(base, newline() + heading + newline(), 0);
    if let Some(start) = section_start(base, heading) {
        let after = start + heading.len();
        lemma_line_after_bounds(base, after);
        lemma_section_end_bounds(base, markers, line_after(base, after));
    }
}

// ---------------------------------------------------------------------------
// Implementation
// ---------------------------------------------------------------------------

fn concat_chars(a: &[char], b: &[char]) -> (r: Vec<char>)
    ensures
        r@ == a@ + b@,
{
    let mut out: Vec<char> = Vec::new();
    extend_all(&mut out, a);
    extend_all(&mut out, b);
    assert(out@ =~= a@ + b@);
    out
}

pub open spec fn views(v: Seq<Vec<char>>) -> Seq<Seq<char>> {
    v.map_values(|x: Vec<char>| x@)
}

/// Find the section under `heading`: its start, and the end just after the
/// newline of the next marker.
fn find_section_range(base: &[char], heading: &[char], next_markers: &Vec<Vec<char>>) -> (r: Option<(usize, usize)>)
    ensures
        r matches Some((s, e)) ==> section_range(base@, heading@, views(next_markers@)) == Some((s as int, e as int)),
        r is None ==> section_range(base@, heading@, views(next_markers@)) is None,
{
    let nl: Vec<char> = vec!['\n'];
    let target_bof = concat_chars(heading, nl.as_slice());
    let with_nl = concat_chars(nl.as_slice(), heading);
    let target = concat_chars(with_nl.as_slice(), nl.as_slice());
    assert(nl@ == newline());
    assert(target@.len() >= 1);
    assert(base@.len() == base.len());
    let start: usize = if chars_match_at(base, target_bof.as_slice(), 0) {
        0
    } else {
        match find_chars(base, target.as_slice(), 0) {
            Some(p) => {
                proof {
                    lemma_find_from(base@, target@, 0);
                }
                p + 1
            },
            None => {
                return None;
            },
        }
    };
    proof {
        lemma_section_range_bounds(base@, heading@, views(next_markers@));
    }
    assert(section_start(base@, heading@) == Some(start as int));
    let after_heading = start + heading.len();
    let content_start = match find_chars(base, nl.as_slice(), after_heading) {
        Some(off) => {
            proof {
                lemma_find_from(base@, nl@, after_heading as int);
            }
            off + 1
        },
        None => after_heading,
    };
    assert(content_start == line_after(base@, after_heading as int));
    let ghost ms = views(next_markers@);
    let mut next = base.len();
    let mut k: usize = 0;
    while k < next_markers.len()
        invariant
            k <= next_markers@.len(),
            ms == views(next_markers@),
            content_start <= base@.len(),
            next == section_end(base@, ms.take(k as int), content_start as int),
        decreases next_markers.len() - k,
    {
        let m = &next_markers[k];
        assert(ms.take(k + 1).drop_last() =~= ms.take(k as int));
        assert(ms.take(k + 1).last() == m@);
        if let Some(p) = find_chars(base, m.as_slice(), content_start) {
            proof {
                lemma_find_from(base@, m@, content_start as int);
            }
            if p < next {
                let idx = p + 1;
                if idx < next {
                    next = idx;
                }
            }
        }
        k += 1;
    }
    assert(ms.take(k as int) =~= ms);
    Some((start, next))
}

/// Index of the first character at or after `j` that is not a newline.
fn skip_newline_chars(s: &[char], j: usize) -> (r: usize)
    requires
        j <= s@.len(),
    ensures
        r == skip_newlines(s@, j as int),
        j <= r <= s@.len(),
{
    let mut k = j;
    while k < s.len() && s[k] == '\n'
        invariant
            j <= k <= s@.len(),
            skip_newlines(s@, k as int) == skip_newlines(s@, j as int),
        decreases s.len() - k,
    {
        k += 1;
    }
    k
}

fn replace_range_with(base: &[char], start: usize, end: usize, heading: &[char], text: &[char]) -> (r: Vec<char>)
    requires
        start <= end <= base@.len(),
    ensures
        r@ == replaced_section(base@, start as int, end as int, heading@, text@),
{
    let mut out: Vec<char> = Vec::new();
    extend_range(&mut out, base, 0, start);
    extend_all(&mut out, heading);
    out.push('\n');
    out.push('\n');
    let keep = trim_end_length(text);
    proof {
        crate::text::lemma_trim_end_len_le(text@);
    }
    extend_range(&mut out, text, 0, keep);
    out.push('\n');
    let j = skip_newline_chars(base, end);
    out.push('\n');
    extend_range(&mut out, base, j, base.len());
    assert(out@ =~= replaced_section(base@, start as int, end as int, heading@, text@));
    out
}

fn merge_after_heading(base: &[char], end: usize, text: &[char]) -> (r: Vec<char>)
    requires
        end <= base@.len(),
    ensures
        r@ == merged_section(base@, end as int, text@),
        is_blank(text@) ==> r@ == base@,
{
    let mut out: Vec<char> = Vec::new();
    if is_blank_chars(text) {
        extend_all(&mut out, base);
        assert(out@ =~= base@);
        return out;
    }
    let kept = trim_newlines_before(base, end);
    let j = skip_newline_chars(base, end);
    extend_range(&mut out, base, 0, kept);
    out.push('\n');
    out.push('\n');
    let keep = trim_end_length(text);
    proof {
        crate::text::lemma_trim_end_len_le(text@);
    }
    extend_range(&mut out, text, 0, keep);
    out.push('\n');
    if j < base.len() {
        out.push('\n');
        extend_range(&mut out, base, j, base.len());
    }
    assert(base@.take(end as int).take(kept as int) =~= base@.subrange(0, kept as int));
    assert(out@ =~= merged_section(base@, end as int, text@));
    out
}

/// Length of `base[..end]` without its trailing newlines.
fn trim_newlines_before(base: &[char], end: usize) -> (r: usize)
    requires
        end <= base@.len(),
    ensures
        r == trim_newlines_len(base@.take(end as int)),
        r <= end,
{
    let mut p = end;
    assert(base@.take(end as int).take(p as int) =~= base@.take(end as int));
    while p > 0 && base[p - 1] == '\n'
        invariant
            p <= end,
            end <= base@.len(),
            trim_newlines_len(base@.take(end as int).take(p as int)) == trim_newlines_len(base@.take(end as int)),
        decreases p,
    {
        assert(base@.take(end as int).take(p as int).drop_last() =~= base@.take(end as int).take(p - 1));
        p -= 1;
    }
    assert(trim_newlines_len(base@.take(end as int).take(p as int)) == p);
    p
}

fn remove_range_normalized(base: &[char], start: usize, end: usize) -> (r: Vec<char>)
    requires
        start <= end <= base@.len(),
    ensures
        r@ == removed_section(base@, start as int, end as int),
{
    let mut p = start;
    assert(base@.take(start as int).take(p as int) =~= base@.take(start as int));
    while p > 0 && base[p - 1] == '\n'
        invariant
            p <= start,
            start <= base@.len(),
            trim_newlines_len(base@.take(start as int).take(p as int)) == trim_newlines_len(base@.take(start as int)),
        decreases p,
    {
        assert(base@.take(start as int).take(p as int).drop_last() =~= base@.take(start as int).take(p - 1));
        p -= 1;
    }
    assert(trim_newlines_len(base@.take(start as int).take(p as int)) == p);
    let j = skip_newline_chars(base, end);
    let mut out: Vec<char> = Vec::new();
    extend_range(&mut out, base, 0, p);
    if p > 0 && j < base.len() {
        out.push('\n');
        out.push('\n');
    }
    extend_range(&mut out, base, j, base.len());
    assert(out@ =~= removed_section(base@, start as int, end as int));
    out
}

fn apply_region(base: &[char], spec: &RegionSpec, heading: &[char], next_markers: &Vec<Vec<char>>) -> (r: Vec<char>)
    ensures
        r@ == apply_region_spec(base@, spec.mode, spec.text@, heading@, views(next_markers@)),
{
    let text = chars_of(spec.text.as_str());
    proof {
        lemma_section_range_bounds(base@, heading@, views(next_markers@));
    }
    if let Some((start, end)) = find_section_range(base, heading, next_markers) {
        match spec.mode {
            Mode::Replace => replace_range_with(base, start, end, heading, text.as_slice()),
            Mode::Merge => merge_after_heading(base, end, text.as_slice()),
            Mode::Disable => remove_range_normalized(base, start, end),
        }
    } else {
        let mut out: Vec<char> = Vec::new();
        extend_all(&mut out, base);
        if spec.mode != Mode::Disable && !is_blank_chars(text.as_slice()) {
            out.push('\n');
            out.push('\n');
            extend_all(&mut out, heading);
            out.push('\n');
            out.push('\n');
            extend_all(&mut out, text.as_slice());
            out.push('\n');
        }
        assert(out@ =~= apply_region_spec(base@, spec.mode, spec.text@, heading@, views(next_markers@)));
        out
    }
}

fn heading_or_default(sel: &Option<Selector>, default_heading: &str) -> (r: Vec<char>)
    ensures
        r@ == match selector_heading(*sel) {
            Some(h) => h,
            None => default_heading@,
        },
{
    match sel {
        Some(s) => match &s.heading {
            Some(h) => chars_of(h.as_str()),
            None => chars_of(default_heading),
        },
        None => chars_of(default_heading),
    }
}

fn apply_optional_region(base: Vec<char>, region: &Option<RegionSpec>, heading: &[char], markers: &Vec<Vec<char>>) -> (r: Vec<char>)
    ensures
        r@ == match region {
            Some(spec) => apply_region_spec(base@, spec.mode, spec.text@, heading@, views(markers@)),
            None => base@,
        },
{
    match region {
        Some(spec) => apply_region(base.as_slice(), spec, heading, markers),
        None => base,
    }
}

/// Apply a style document to the base prompt.
///
/// Returns `None` when the document is not a `codex-style` of version 1;
/// otherwise the base prompt with each region that the document names
/// replaced, merged or removed, in the order personality, presentation,
/// preambles, planning, progress.
pub fn apply_style_doc(base: &str, doc: &StyleDoc) -> (r: Option<String>)
    ensures
        r is Some <==> is_codex_style(*doc),
        r matches Some(s) ==> s@ == styled_prompt(base@, *doc),
{
    if !(str_equal(doc.kind.as_str(), "codex-style") && doc.version == 1) {
        return None;
    }
    let h2: Vec<Vec<char>> = vec![chars_of("\n## ")];
    let h3: Vec<Vec<char>> = vec![chars_of("\n### "), chars_of("\n## ")];
    assert(views(h2@) =~= h2_markers());
    assert(views(h3@) =~= h3_markers());
    let none_selector: Option<Selector> = None;
    let (sel_personality, sel_presentation, sel_preambles, sel_planning, sel_progress) = match &doc.selectors {
        Some(s) => (&s.personality, &s.presentation, &s.preambles, &s.planning, &s.progress),
        None => (&none_selector, &none_selector, &none_selector, &none_selector, &none_selector),
    };
    let out = chars_of(base);
    let heading = heading_or_default(sel_personality, "## Personality");
    let out = apply_optional_region(out, &doc.regions.personality, heading.as_slice(), &h2);
    let heading = heading_or_default(sel_presentation, "## Presenting your work and final message");
    let out = apply_optional_region(out, &doc.regions.presentation, heading.as_slice(), &h2);
    let heading = heading_or_default(sel_preambles, "### Preamble messages");
    let out = apply_optional_region(out, &doc.regions.preambles, heading.as_slice(), &h3);
    let heading = heading_or_default(sel_planning, "## Planning");
    let out = apply_optional_region(out, &doc.regions.planning, heading.as_slice(), &h2);
    let heading = heading_or_default(sel_progress, "## Sharing progress updates");
    let out = apply_optional_region(out, &doc.regions.progress, heading.as_slice(), &h2);
    Some(string_of(out.as_slice()))
}

// ---------------------------------------------------------------------------
// Laws
// ---------------------------------------------------------------------------

/// When a heading is not found, the base prompt is kept whole and, for a
/// replace or merge with text that is not blank, a new section is appended
/// at its end; otherwise nothing changes.
pub proof fn law_missing_section_is_appended(base: Seq<char>, mode: Mode, text: Seq<char>, heading: Seq<char>, markers: Seq<Seq<char>>)
    requires
        section_range(base, heading, markers) is None,
    ensures
        apply_region_spec(base, mode, text, heading, markers).take(base.len() as int) == base,
        mode != Mode::Disable && !is_blank(text) ==> apply_region_spec(base, mode, text, heading, markers)
            == base + blank_line() + heading + blank_line() + text + newline(),
        mode == Mode::Disable || is_blank(text) ==> apply_region_spec(base, mode, text, heading, markers) == base,
{
    let r = apply_region_spec(base, mode, text, heading, markers);
    assert(r.take(base.len() as int) =~= base);
}

/// Replacing a section keeps everything before it, puts the heading, a blank
/// line and the text (trailing white space removed) in its place, and leaves
/// exactly one blank line before the rest of the prompt, which is kept from
/// its first character that is not a newline.
pub proof fn law_replace_keeps_surroundings(base: Seq<char>, text: Seq<char>, heading: Seq<char>, markers: Seq<Seq<char>>)
    requires
        section_range(base, heading, markers) is Some,
    ensures
        ({
            let (start, end) = section_range(base, heading, markers)->0;
            let j = skip_newlines(base, end);
            let r = apply_region_spec(base, Mode::Replace, text, heading, markers);
            &&& r == base.take(start) + heading + blank_line() + trim_end(text) + blank_line() + base.skip(j)
            &&& end <= j <= base.len()
            &&& forall|k: int| end <= k < j ==> base[k] == '\n'
            &&& j < base.len() ==> base[j] != '\n'
        }),
{
    lemma_section_range_bounds(base, heading, markers);
    let (start, end) = section_range(base, heading, markers)->0;
    lemma_skip_newlines_facts(base, end);
}

/// Merging into a section keeps the section's content (without its trailing
/// newlines), appends the text after exactly one blank line, and leaves
/// exactly one blank line before the rest of the prompt, which is kept from
/// its first character that is not a newline; a prompt that ends with the
/// section ends with one newline after the text.
pub proof fn law_merge_appends_with_one_blank_line(base: Seq<char>, text: Seq<char>, heading: Seq<char>, markers: Seq<Seq<char>>)
    requires
        section_range(base, heading, markers) is Some,
        !is_blank(text),
    ensures
        ({
            let (start, end) = section_range(base, heading, markers)->0;
            let j = skip_newlines(base, end);
            let kept = base.take(end).take(trim_newlines_len(base.take(end)) as int);
            let r = apply_region_spec(base, Mode::Merge, text, heading, markers);
            &&& j < base.len() ==> r == kept + blank_line() + trim_end(text) + blank_line() + base.skip(j)
            &&& j == base.len() ==> r == kept + blank_line() + trim_end(text) + newline()
            &&& kept.len() > 0 ==> kept.last() != '\n'
            &&& start + heading.len() <= end
            &&& forall|k: int| end <= k < j ==> base[k] == '\n'
            &&& j < base.len() ==> base[j] != '\n'
        }),
{
    lemma_section_range_bounds(base, heading, markers);
    let (start, end) = section_range(base, heading, markers)->0;
    lemma_skip_newlines_facts(base, end);
    lemma_trim_newlines(base.take(end));
}

/// Merging blank text changes nothing, whether or not the section is found.
pub proof fn law_merge_blank_text_changes_nothing(base: Seq<char>, text: Seq<char>, heading: Seq<char>, markers: Seq<Seq<char>>)
    requires
        is_blank(text),
    ensures
        apply_region_spec(base, Mode::Merge, text, heading, markers) == base,
{
}

/// Disabling a section removes it and the newlines around it, keeping what
/// precedes and follows it with a single blank line between them.
pub proof fn law_disable_removes_section(base: Seq<char>, heading: Seq<char>, markers: Seq<Seq<char>>)
    requires
        section_range(base, heading, markers) is Some,
    ensures
        ({
            let (start, end) = section_range(base, heading, markers)->0;
            let j = skip_newlines(base, end);
            let r = apply_region_spec(base, Mode::Disable, Seq::empty(), heading, markers);
            let prefix = base.take(start).take(trim_newlines_len(base.take(start)) as int);
            &&& r == prefix + (if prefix.len() > 0 && j < base.len() {
                blank_line()
            } else {
                Seq::empty()
            }) + base.skip(j)
            &&& prefix.len() > 0 ==> prefix.last() != '\n'
            &&& j < base.len() ==> base[j] != '\n'
        }),
{
    lemma_section_range_bounds(base, heading, markers);
    let (start, end) = section_range(base, heading, markers)->0;
    lemma_skip_newlines_facts(base, end);
    lemma_trim_newlines(base.take(start));
}

/// The region at position `k` of the fixed order personality, presentation,
/// preambles, planning, progress.
pub open spec fn region_at(r: Regions, k: int) -> Option<RegionSpec> {
    if k == 0 {
        r.personality
    } else if k == 1 {
        r.presentation
    } else if k == 2 {
        r.preambles
    } else if k == 3 {
        r.planning
    } else {
        r.progress
    }
}

/// The document changes only the region at position `k`, found under its
/// default heading.
pub open spec fn only_region(doc: StyleDoc, k: int) -> bool {
    &&& doc.selectors is None
    &&& forall|i: int| 0 <= i < 5 && i != k ==> (#[trigger] region_at(doc.regions, i)) is None
}

/// The preambles section ends at the earliest later line that starts with
/// `### ` or `## `: applying a preambles region, in any mode, leaves the
/// prompt from that heading line onward unchanged (a following `###`
/// subsection is kept), and replacing puts the heading, a blank line, the new
/// text and a blank line before that line.
pub proof fn law_preambles_end_at_next_subheading(base: Seq<char>, doc: StyleDoc, start: int, p: int)
    requires
        only_region(doc, 2),
        doc.regions.preambles is Some,
        section_start(base, "### Preamble messages"@) == Some(start),
        start + "### Preamble messages"@.len() + 1 <= p,
        matches_at(base, "\n### "@, p) || matches_at(base, "\n## "@, p),
        forall|q: int| start + "### Preamble messages"@.len() + 1 <= q < p ==> !#[trigger] matches_at(base, "\n### "@, q),
        forall|q: int| start + "### Preamble messages"@.len() + 1 <= q < p ==> !#[trigger] matches_at(base, "\n## "@, q),
    ensures
        ({
            let r = styled_prompt(base, doc);
            let rest = base.skip(p + 1);
            &&& rest.len() <= r.len()
            &&& r.skip(r.len() - rest.len()) == rest
            &&& doc.regions.preambles->0.mode == Mode::Replace ==> r == base.take(start) + "### Preamble messages"@
                + blank_line() + trim_end(doc.regions.preambles->0.text@) + blank_line() + rest
        }),
{
    let heading = "### Preamble messages"@;
    let h3 = "\n### "@;
    let h2 = "\n## "@;
    reveal_strlit("\n### ");
    reveal_strlit("\n## ");
    assert(region_at(doc.regions, 0) is None);
    assert(region_at(doc.regions, 1) is None);
    assert(region_at(doc.regions, 3) is None);
    assert(region_at(doc.regions, 4) is None);
    lemma_heading_line(base, heading, start);
    let c = start + heading.len() + 1;
    lemma_find_from(base, h3, c);
    lemma_find_from(base, h2, c);
    if matches_at(base, h3, p) {
        assert(base[p + 1] == base.subrange(p, p + 5)[1]);
        assert(base[p + 3] == base.subrange(p, p + 5)[3]);
        if matches_at(base, h2, p) {
            assert(base[p + 3] == base.subrange(p, p + 4)[3]);
        }
    } else {
        assert(base[p + 1] == base.subrange(p, p + 4)[1]);
        assert(base[p + 3] == base.subrange(p, p + 4)[3]);
        if matches_at(base, h3, p) {
            assert(base[p + 3] == base.subrange(p, p + 5)[3]);
        }
    }
    let ms = h3_markers();
    assert(ms.drop_last() =~= seq![h3]);
    assert(ms.drop_last().drop_last() =~= Seq::<Seq<char>>::empty());
    assert(ms.last() == h2);
    assert(ms.drop_last().last() == h3);
    assert(section_end(base, ms.drop_last().drop_last(), c) == base.len());
    if matches_at(base, h3, p) {
        assert(find_from(base, h3, c) == Some(p));
        assert(section_end(base, ms.drop_last(), c) == p + 1);
        assert(find_from(base, h2, c) is None || find_from(base, h2, c)->0 > p);
    } else {
        assert(find_from(base, h2, c) == Some(p));
        assert(find_from(base, h3, c) is None || find_from(base, h3, c)->0 > p);
        assert(section_end(base, ms.drop_last(), c) > p + 1);
    }
    assert(section_end(base, ms, c) == p + 1);
    assert(section_range(base, heading, ms) == Some((start, p + 1)));
    let spec = doc.regions.preambles->0;
    lemma_region_keeps_rest(base, spec.mode, spec.text@, heading, ms, start, p + 1);
}

/// The personality, presentation, planning and progress sections each end at
/// the earliest later line that starts with `## `: a `###` subsection inside
/// is part of the section. Replacing such a section puts the heading, a blank
/// line, the new text and a blank line in place of everything up to that
/// line, and keeps the prompt from that line on.
pub proof fn law_top_sections_end_at_next_heading(base: Seq<char>, doc: StyleDoc, k: int, heading: Seq<char>, start: int, p: int)
    requires
        0 <= k < 5,
        k != 2,
        only_region(doc, k),
        region_at(doc.regions, k) matches Some(spec) && spec.mode == Mode::Replace,
        heading == (if k == 0 {
            "## Personality"@
        } else if k == 1 {
            "## Presenting your work and final message"@
        } else if k == 3 {
            "## Planning"@
        } else {
            "## Sharing progress updates"@
        }),
        section_start(base, heading) == Some(start),
        start + heading.len() + 1 <= p,
        matches_at(base, "\n## "@, p),
        forall|q: int| start + heading.len() + 1 <= q < p ==> !#[trigger] matches_at(base, "\n## "@, q),
    ensures
        styled_prompt(base, doc) == base.take(start) + heading + blank_line() + trim_end(
            region_at(doc.regions, k)->0.text@,
        ) + blank_line() + base.skip(p + 1),
{
    let h2 = "\n## "@;
    reveal_strlit("\n## ");
    assert(region_at(doc.regions, 0) is None || k == 0);
    assert(region_at(doc.regions, 1) is None || k == 1);
    assert(region_at(doc.regions, 2) is None);
    assert(region_at(doc.regions, 3) is None || k == 3);
    assert(region_at(doc.regions, 4) is None || k == 4);
    lemma_heading_line(base, heading, start);
    let c = start + heading.len() + 1;
    lemma_find_from(base, h2, c);
    assert(base[p + 1] == base.subrange(p, p + 4)[1]);
    let ms = h2_markers();
    assert(ms.drop_last() =~= Seq::<Seq<char>>::empty());
    assert(ms.last() == h2);
    assert(section_end(base, ms.drop_last(), c) == base.len());
    assert(find_from(base, h2, c) == Some(p));
    assert(section_end(base, ms, c) == p + 1);
    assert(section_range(base, heading, ms) == Some((start, p + 1)));
    let spec = region_at(doc.regions, k)->0;
    lemma_region_keeps_rest(base, spec.mode, spec.text@, heading, ms, start, p + 1);
}

/// A heading found at `start` is followed by a newline, and the section's
/// content starts just after it.
proof fn lemma_heading_line(base: Seq<char>, heading: Seq<char>, start: int)
    requires
        section_start(base, heading) == Some(start),
    ensures
        0 <= start,
        start + heading.len() < base.len(),
        base[start + heading.len()] == '\n',
        line_after(base, start + heading.len()) == start + heading.len() + 1,
{
    let n = heading.len() as int;
    if matches_at(base, heading + newline(), 0) {
        assert(base[n] == base.subrange(0, n + 1)[n]);
    } else {
        lemma_find_from(base, newline() + heading + newline(), 0);
        let q = start - 1;
        assert(base[q + 1 + n] == base.subrange(q, q + n + 2)[n + 1]);
    }
    assert(base.subrange(start + n, start + n + 1) =~= newline());
    assert(find_from(base, newline(), start + n) == Some(start + n));
}

/// Applying a region whose section ends at `end`, just before a line that
/// does not start with a newline, keeps the prompt from `end` on; replacing
/// puts the heading, a blank line, the text and a blank line before it.
proof fn lemma_region_keeps_rest(base: Seq<char>, mode: Mode, text: Seq<char>, heading: Seq<char>, markers: Seq<Seq<char>>, start: int, end: int)
    requires
        section_range(base, heading, markers) == Some((start, end)),
        end < base.len(),
        base[end] != '\n',
    ensures
        ({
            let r = apply_region_spec(base, mode, text, heading, markers);
            let rest = base.skip(end);
            &&& rest.len() <= r.len()
            &&& r.skip(r.len() - rest.len()) == rest
            &&& mode == Mode::Replace ==> r == base.take(start) + heading + blank_line() + trim_end(text)
                + blank_line() + rest
        }),
{
    lemma_section_range_bounds(base, heading, markers);
    assert(skip_newlines(base, end) == end);
    let rest = base.skip(end);
    let r = apply_region_spec(base, mode, text, heading, markers);
    let front: Seq<char> = match mode {
        Mode::Replace => base.take(start) + heading + blank_line() + trim_end(text) + blank_line(),
        Mode::Merge => if is_blank(text) {
            base.take(end)
        } else {
            base.take(end).take(trim_newlines_len(base.take(end)) as int) + blank_line() + trim_end(text)
                + blank_line()
        },
        Mode::Disable => {
            let prefix = base.take(start).take(trim_newlines_len(base.take(start)) as int);
            prefix + (if prefix.len() > 0 && rest.len() > 0 {
                blank_line()
            } else {
                Seq::empty()
            })
        },
    };
    assert(r =~= front + rest);
    assert((front + rest).skip(front.len() as int) =~= rest);
}

proof fn lemma_skip_newlines_facts(s: Seq<char>, j: int)
    requires
        0 <= j <= s.len(),
    ensures
        j <= skip_newlines(s, j) <= s.len(),
        forall|k: int| j <= k < skip_newlines(s, j) ==> s[k] == '\n',
        skip_newlines(s, j) < s.len() ==> s[skip_newlines(s, j)] != '\n',
    decreases s.len() - j,
{
    if j < s.len() && s[j] == '\n' {
        lemma_skip_newlines_facts(s, j + 1);
    }
}

proof fn lemma_trim_newlines(s: Seq<char>)
    ensures
        trim_newlines_len(s) <= s.len(),
        trim_newlines_len(s) > 0 ==> s[trim_newlines_len(s) - 1] != '\n',
    decreases s.len(),
{
    if s.len() > 0 && s.last() == '\n' {
        lemma_trim_newlines(s.drop_last());
    }
}

// ---------------------------------------------------------------------------
// Selecting sections of an assembled prompt
// ---------------------------------------------------------------------------

/// The pieces of `s[from..]` between commas, as `str::split(',')` gives them.
pub open spec fn comma_segments_from(s: Seq<char>, from: int) -> Seq<Seq<char>>
    decreases s.len() + 1 - from,
{
    if from < 0 || from > s.len() {
        Seq::empty()
    } else {
        match find_from(s, seq![','], from) {
            Some(p) => {
                proof {
                    lemma_find_from(s, seq![','], from);
                }
                seq![s.subrange(from, p)] + comma_segments_from(s, p + 1)
            },
            None => seq![s.subrange(from, s.len() as int)],
        }
    }
}

pub open spec fn comma_segments(s: Seq<char>) -> Seq<Seq<char>> {
    comma_segments_from(s, 0)
}

/// Some piece of `segments`, trimmed, is not empty and equals `key` up to
/// ASCII case.
pub open spec fn some_segment_names(segments: Seq<Seq<char>>, key: Seq<char>) -> bool {
    exists|k: int|
        0 <= k < segments.len() && trim(#[trigger] segments[k]).len() > 0 && eq_ignore_ascii_case(
            trim(segments[k]),
            key,
        )
}

/// The comma-separated `list` asks for the section `key`.
pub open spec fn lists_section(list: Seq<char>, key: Seq<char>) -> bool {
    some_segment_names(comma_segments(list), key)
}

/// `acc` extended by the section under `heading` when the list asks for it
/// and the section is found, with a newline between sections.
pub open spec fn with_section(acc: Seq<char>, full: Seq<char>, list: Seq<char>, key: Seq<char>, heading: Seq<char>, markers: Seq<Seq<char>>) -> Seq<char> {
    if lists_section(list, key) {
        match section_range(full, heading, markers) {
            Some((a, b)) => (if acc.len() > 0 {
                acc.push('\n')
            } else {
                acc
            }) + full.subrange(a, b),
            None => acc,
        }
    } else {
        acc
    }
}

/// The sections of `full` that `list` asks for, in the fixed section order.
pub open spec fn selected_sections(full: Seq<char>, list: Seq<char>) -> Seq<char> {
    let a1 = with_section(Seq::empty(), full, list, "personality"@, "## Personality"@, h2_markers());
    let a2 = with_section(a1, full, list, "presentation"@, "## Presenting your work and final message"@, h2_markers());
    let a3 = with_section(a2, full, list, "preambles"@, "### Preamble messages"@, h3_markers());
    let a4 = with_section(a3, full, list, "planning"@, "## Planning"@, h2_markers());
    with_section(a4, full, list, "progress"@, "## Sharing progress updates"@, h2_markers())
}

/// The key of the section at position `k` of the fixed order personality,
/// presentation, preambles, planning, progress.
pub open spec fn section_key(k: int) -> Seq<char> {
    if k == 0 {
        "personality"@
    } else if k == 1 {
        "presentation"@
    } else if k == 2 {
        "preambles"@
    } else if k == 3 {
        "planning"@
    } else {
        "progress"@
    }
}

/// The heading of the section at position `k`.
pub open spec fn section_heading(k: int) -> Seq<char> {
    if k == 0 {
        "## Personality"@
    } else if k == 1 {
        "## Presenting your work and final message"@
    } else if k == 2 {
        "### Preamble messages"@
    } else if k == 3 {
        "## Planning"@
    } else {
        "## Sharing progress updates"@
    }
}

/// The heading lines that end the section at position `k`: `### ` or `## `
/// lines for the preambles, `## ` lines for the others.
pub open spec fn section_markers(k: int) -> Seq<Seq<char>> {
    if k == 2 {
        seq!["\n### "@, "\n## "@]
    } else {
        seq!["\n## "@]
    }
}

/// `x` occurs somewhere in `s`.
pub open spec fn occurs_in(s: Seq<char>, x: Seq<char>) -> bool {
    exists|i: int| 0 <= i && i + x.len() <= s.len() && #[trigger] s.subrange(i, i + x.len()) == x
}

/// A list that names exactly one of the five sections selects that whole
/// section, from its heading to the heading line that ends it, or nothing
/// when the prompt has no such section.
pub proof fn law_single_section_selected(full: Seq<char>, list: Seq<char>, k: int)
    requires
        0 <= k < 5,
        lists_section(list, section_key(k)),
        forall|j: int| 0 <= j < 5 && j != k ==> !lists_section(list, #[trigger] section_key(j)),
    ensures
        selected_sections(full, list) == match section_range(full, section_heading(k), section_markers(k)) {
            Some((a, b)) => full.subrange(a, b),
            None => Seq::empty(),
        },
{
    assert(section_markers(2) =~= h3_markers());
    assert(section_markers(0) =~= h2_markers());
    if k != 0 {
        assert(!lists_section(list, section_key(0)));
    }
    if k != 1 {
        assert(!lists_section(list, section_key(1)));
    }
    if k != 2 {
        assert(!lists_section(list, section_key(2)));
    }
    if k != 3 {
        assert(!lists_section(list, section_key(3)));
    }
    if k != 4 {
        assert(!lists_section(list, section_key(4)));
    }
    lemma_section_range_bounds(full, section_heading(k), section_markers(k));
    if let Some((a, b)) = section_range(full, section_heading(k), section_markers(k)) {
        assert(Seq::<char>::empty() + full.subrange(a, b) =~= full.subrange(a, b));
    }
}

/// Every listed section that the prompt has is part of the selection: a
/// listed personality section opens it and a listed progress section
/// closes it, after the other selected sections.
pub proof fn law_listed_sections_selected(full: Seq<char>, list: Seq<char>, k: int)
    requires
        0 <= k < 5,
        lists_section(list, section_key(k)),
        section_range(full, section_heading(k), section_markers(k)) is Some,
    ensures
        ({
            let (a, b) = section_range(full, section_heading(k), section_markers(k))->0;
            let x = full.subrange(a, b);
            let r = selected_sections(full, list);
            &&& occurs_in(r, x)
            &&& k == 0 ==> r.take(x.len() as int) == x
            &&& k == 4 ==> x.len() <= r.len() && r.skip(r.len() - x.len()) == x
        }),
{
    assert(section_markers(2) =~= h3_markers());
    assert(section_markers(0) =~= h2_markers());
    lemma_section_range_bounds(full, section_heading(k), section_markers(k));
    let (a, b) = section_range(full, section_heading(k), section_markers(k))->0;
    let x = full.subrange(a, b);
    let e = Seq::<char>::empty();
    let a1 = with_section(e, full, list, "personality"@, "## Personality"@, h2_markers());
    let a2 = with_section(a1, full, list, "presentation"@, "## Presenting your work and final message"@, h2_markers());
    let a3 = with_section(a2, full, list, "preambles"@, "### Preamble messages"@, h3_markers());
    let a4 = with_section(a3, full, list, "planning"@, "## Planning"@, h2_markers());
    let a5 = with_section(a4, full, list, "progress"@, "## Sharing progress updates"@, h2_markers());
    lemma_with_section_extends(e, full, list, "personality"@, "## Personality"@, h2_markers());
    lemma_with_section_extends(a1, full, list, "presentation"@, "## Presenting your work and final message"@, h2_markers());
    lemma_with_section_extends(a2, full, list, "preambles"@, "### Preamble messages"@, h3_markers());
    lemma_with_section_extends(a3, full, list, "planning"@, "## Planning"@, h2_markers());
    lemma_with_section_extends(a4, full, list, "progress"@, "## Sharing progress updates"@, h2_markers());
    let ak = if k == 0 {
        a1
    } else if k == 1 {
        a2
    } else if k == 2 {
        a3
    } else if k == 3 {
        a4
    } else {
        a5
    };
    assert(x.len() <= ak.len() && ak.skip(ak.len() - x.len()) == x);
    lemma_prefix_trans(a1, a2, a3);
    lemma_prefix_trans(a1, a3, a4);
    lemma_prefix_trans(a1, a4, a5);
    lemma_prefix_trans(a2, a3, a4);
    lemma_prefix_trans(a2, a4, a5);
    lemma_prefix_trans(a3, a4, a5);
    assert(a5.len() >= ak.len() && a5.take(ak.len() as int) == ak);
    let i = ak.len() - x.len();
    assert(a5.subrange(i, i + x.len()) =~= ak.subrange(i, i + x.len()));
    assert(ak.subrange(i, i + x.len()) =~= ak.skip(i));
    assert(a5.subrange(i, i + x.len()) == x);
    if k == 0 {
        assert(a1 =~= x);
        assert(a5.take(x.len() as int) =~= a1);
    }
}

/// A selection step keeps what was selected before as its beginning, and a
/// listed section that is found ends the result.
proof fn lemma_with_section_extends(acc: Seq<char>, full: Seq<char>, list: Seq<char>, key: Seq<char>, heading: Seq<char>, markers: Seq<Seq<char>>)
    ensures
        ({
            let w = with_section(acc, full, list, key, heading, markers);
            &&& acc.len() <= w.len()
            &&& w.take(acc.len() as int) == acc
            &&& lists_section(list, key) ==> (section_range(full, heading, markers) matches Some((a, b)) ==> {
                &&& b - a <= w.len()
                &&& w.skip(w.len() - (b - a)) == full.subrange(a, b)
            })
        }),
{
    lemma_section_range_bounds(full, heading, markers);
    let w = with_section(acc, full, list, key, heading, markers);
    if lists_section(list, key) {
        if let Some((a, b)) = section_range(full, heading, markers) {
            let front = if acc.len() > 0 {
                acc.push('\n')
            } else {
                acc
            };
            assert(w == front + full.subrange(a, b));
            assert(w.take(acc.len() as int) =~= acc);
            assert(w.skip(w.len() - (b - a)) =~= full.subrange(a, b));
        } else {
            assert(w.take(acc.len() as int) =~= acc);
        }
    } else {
        assert(w.take(acc.len() as int) =~= acc);
    }
}

proof fn lemma_prefix_trans(s1: Seq<char>, s2: Seq<char>, s3: Seq<char>)
    requires
        s1.len() <= s2.len(),
        s2.take(s1.len() as int) == s1,
        s2.len() <= s3.len(),
        s3.take(s2.len() as int) == s2,
    ensures
        s1.len() <= s3.len(),
        s3.take(s1.len() as int) == s1,
{
    assert(s3.take(s1.len() as int) =~= s2.take(s1.len() as int));
}

proof fn lemma_trim_as_subrange(s: Seq<char>, e: int, st: int)
    requires
        e == trim_end_len(s),
        st == trim_start_count(s.take(e)),
        st <= e <= s.len(),
    ensures
        trim(s) == s.subrange(st, e),
{
    assert(trim(s) =~= s.subrange(st, e));
}

/// Whether the comma-separated `list` names `key`.
fn list_names_section(list: &[char], key: &[char]) -> (r: bool)
    ensures
        r == lists_section(list@, key@),
{
    let comma: Vec<char> = vec![','];
    assert(comma@ == seq![',']);
    let ghost all = comma_segments(list@);
    let ghost mut done: Seq<Seq<char>> = Seq::empty();
    let mut from: usize = 0;
    let n = list.len();
    loop
        invariant
            n == list@.len(),
            from <= list@.len(),
            comma@ == seq![','],
            all == comma_segments(list@),
            all == done + comma_segments_from(list@, from as int),
            !some_segment_names(done, key@),
        decreases list@.len() + 1 - from,
    {
        let found = find_chars(list, comma.as_slice(), from);
        proof {
            lemma_find_from(list@, seq![','], from as int);
        }
        let end = match found {
            Some(p) => p,
            None => list.len(),
        };
        let mut seg: Vec<char> = Vec::new();
        extend_range(&mut seg, list, from, end);
        assert(seg@ =~= list@.subrange(from as int, end as int));
        let e = trim_end_length(seg.as_slice());
        proof {
            crate::text::lemma_trim_end_len_le(seg@);
        }
        let st = trim_start_length(seg.as_slice(), e);
        proof {
            lemma_trim_as_subrange(seg@, e as int, st as int);
        }
        let matched = e > st && chars_eq_ignore_ascii_case(key, seg.as_slice(), st, e);
        let ghost rest = comma_segments_from(list@, from as int);
        assert(rest[0] == seg@);
        if matched {
            assert(all[done.len() as int] == seg@);
            assert(some_segment_names(all, key@));
            return true;
        }
        proof {
            let nd = done.push(seg@);
            assert forall|k: int| 0 <= k < nd.len() implies !(trim(#[trigger] nd[k]).len() > 0
                && eq_ignore_ascii_case(trim(nd[k]), key@)) by {
                if k < done.len() {
                    assert(nd[k] == done[k]);
                }
            }
            done = nd;
        }
        match found {
            Some(p) => {
                assert(all =~= done + comma_segments_from(list@, p + 1));
                from = p + 1;
            },
            None => {
                assert(all =~= done);
                return false;
            },
        }
    }
}

fn push_section(acc: &mut Vec<char>, full: &[char], list: &[char], key: &str, heading: &str, markers: &Vec<Vec<char>>)
    ensures
        final(acc)@ == with_section(old(acc)@, full@, list@, key@, heading@, views(markers@)),
{
    let key_chars = chars_of(key);
    if list_names_section(list, key_chars.as_slice()) {
        let heading_chars = chars_of(heading);
        proof {
            lemma_section_range_bounds(full@, heading@, views(markers@));
        }
        if let Some((a, b)) = find_section_range(full, heading_chars.as_slice(), markers) {
            if acc.len() > 0 {
                acc.push('\n');
            }
            extend_range(acc, full, a, b);
        }
    }
}

/// The sections of the assembled prompt `full` that the comma-separated
/// `sections` list asks for (names compared ignoring ASCII case and
/// surrounding white space), in the order personality, presentation,
/// preambles, planning, progress, separated by newlines.
pub fn select_style_sections(full: &str, sections: &str) -> (r: String)
    ensures
        r@ == selected_sections(full@, sections@),
{
    let h2: Vec<Vec<char>> = vec![chars_of("\n## ")];
    let h3: Vec<Vec<char>> = vec![chars_of("\n### "), chars_of("\n## ")];
    assert(views(h2@) =~= h2_markers());
    assert(views(h3@) =~= h3_markers());
    let full_chars = chars_of(full);
    let list = chars_of(sections);
    let mut out: Vec<char> = Vec::new();
    push_section(&mut out, full_chars.as_slice(), list.as_slice(), "personality", "## Personality", &h2);
    push_section(&mut out, full_chars.as_slice(), list.as_slice(), "presentation", "## Presenting your work and final message", &h2);
    push_section(&mut out, full_chars.as_slice(), list.as_slice(), "preambles", "### Preamble messages", &h3);
    push_section(&mut out, full_chars.as_slice(), list.as_slice(), "planning", "## Planning", &h2);
    push_section(&mut out, full_chars.as_slice(), list.as_slice(), "progress", "## Sharing progress updates", &h2);
    string_of(out.as_slice())
}

} // verus!
