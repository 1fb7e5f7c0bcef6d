//! Optional YAML frontmatter at the top of a prompt file.
//!
//! A prompt file may begin with a line that is exactly `---`, a YAML block,
//! and another line that is exactly `---`. Of that block only the string
//! values of the keys `description`, `argument_hint` (also spelled
//! `argument-hint`) and `model` are kept.

use vstd::prelude::*;

use crate::text::{chars_match_at, chars_of, extend_range, matches_at, str_equal, string_of};

verus! {

/// The error type of `serde_yaml`, carried through opaque.
#[verifier::external_type_specification]
#[verifier::external_body]
pub struct ExYamlError(serde_yaml::Error);

/// One entry of a YAML mapping, each side kept as a string when the YAML
/// value is a string.
#[derive(Debug)]
pub struct YamlEntry {
    pub key: Option<String>,
    pub value: Option<String>,
}

pub open spec fn opt_view(s: Option<String>) -> Option<Seq<char>> {
    match s {
        Some(v) => Some(v@),
        None => None,
    }
}

impl View for YamlEntry {
    type V = (Option<Seq<char>>, Option<Seq<char>>);

    open spec fn view(&self) -> Self::V {
        (opt_view(self.key), opt_view(self.value))
    }
}

pub open spec fn entries_view(doc: Option<Vec<YamlEntry>>) -> Option<Seq<(Option<Seq<char>>, Option<Seq<char>>)>> {
    match doc {
        Some(v) => Some(v@.map_values(|e: YamlEntry| e@)),
        None => None,
    }
}

/// What `serde_yaml` makes of a YAML text, seen as string entries:
/// `None` when the text is not valid YAML, `Some(None)` when it is valid but
/// its top-level value is not a mapping, and `Some(Some(entries))` with the
/// mapping's entries, in order, when it is one.
pub uninterp spec fn yaml_string_entries(payload: Seq<char>) -> Option<Option<Seq<(Option<Seq<char>>, Option<Seq<char>>)>>>;

/// Calls `serde_yaml::from_str::<serde_yaml::Value>` and, when the value is
/// a `Value::Mapping`, hands out its entries in order, each key and value
/// converted with `Value::as_str`. The contract claims only that the outcome
/// is the named function of the text: the YAML grammar itself is not stated.
#[verifier::external_body]
fn parse_yaml_entries(payload: &str) -> (r: Result<Option<Vec<YamlEntry>>, serde_yaml::Error>)
    ensures
        r is Err <==> yaml_string_entries(payload@) is None,
        r matches Ok(doc) ==> yaml_string_entries(payload@) == Some(entries_view(doc)),
{
    match serde_yaml::from_str::<serde_yaml::Value>(payload) {
        Ok(serde_yaml::Value::Mapping(map)) => Ok(Some(map.iter().map(|(k, v)| YamlEntry {
            key: k.as_str().map(String::from),
            value: v.as_str().map(String::from),
        }).collect())),
        Ok(_) => Ok(None),
        Err(e) => Err(e),
    }
}

/// The metadata kept from a frontmatter block.
#[derive(Debug)]
pub struct FrontmatterMeta {
    pub description: Option<String>,
    pub argument_hint: Option<String>,
    pub model: Option<String>,
}

impl View for FrontmatterMeta {
    type V = (Option<Seq<char>>, Option<Seq<char>>, Option<Seq<char>>);

    open spec fn view(&self) -> Self::V {
        (opt_view(self.description), opt_view(self.argument_hint), opt_view(self.model))
    }
}

pub open spec fn opt_ref_view(s: Option<&String>) -> Option<Seq<char>> {
    match s {
        Some(v) => Some(v@),
        None => None,
    }
}

/// The value held under a key: one of `description`, `argument_hint` and
/// `model`; nothing under any other key.
pub open spec fn meta_lookup(meta: (Option<Seq<char>>, Option<Seq<char>>, Option<Seq<char>>), key: Seq<char>) -> Option<Seq<char>> {
    if key == "description"@ {
        meta.0
    } else if key == "argument_hint"@ {
        meta.1
    } else if key == "model"@ {
        meta.2
    } else {
        None
    }
}

pub open spec fn empty_meta() -> (Option<Seq<char>>, Option<Seq<char>>, Option<Seq<char>>) {
    (None, None, None)
}

/// The key under which an entry is kept: `argument-hint` is read as
/// `argument_hint`.
pub open spec fn normalized_key(k: Seq<char>) -> Seq<char> {
    if k == "argument-hint"@ {
        "argument_hint"@
    } else {
        k
    }
}

/// `meta` after one entry: a string value under a known key replaces the
/// value held for it; anything else leaves `meta` as it is.
pub open spec fn meta_with_entry(
    meta: (Option<Seq<char>>, Option<Seq<char>>, Option<Seq<char>>),
    entry: (Option<Seq<char>>, Option<Seq<char>>),
) -> (Option<Seq<char>>, Option<Seq<char>>, Option<Seq<char>>) {
    match (entry.0, entry.1) {
        (Some(k), Some(v)) => {
            let key = normalized_key(k);
            if key == "description"@ {
                (Some(v), meta.1, meta.2)
            } else if key == "argument_hint"@ {
                (meta.0, Some(v), meta.2)
            } else if key == "model"@ {
                (meta.0, meta.1, Some(v))
            } else {
                meta
            }
        },
        _ => meta,
    }
}

/// The metadata collected from the entries, in order (a later entry for a
/// key wins).
pub open spec fn meta_from_entries(entries: Seq<(Option<Seq<char>>, Option<Seq<char>>)>) -> (Option<Seq<char>>, Option<Seq<char>>, Option<Seq<char>>)
    decreases entries.len(),
{
    if entries.len() == 0 {
        empty_meta()
    } else {
        meta_with_entry(meta_from_entries(entries.drop_last()), entries.last())
    }
}

/// Length of the opening delimiter line, `---` followed by CRLF or LF.
pub open spec fn opening_len(s: Seq<char>) -> Option<int> {
    if matches_at(s, "---\r\n"@, 0) {
        Some(5)
    } else if matches_at(s, "---\n"@, 0) {
        Some(4)
    } else {
        None
    }
}

/// When a closing delimiter starts at `p` (the block's content starting at
/// `open`): how far past `p` the body starts. A `---` line right at `open`
/// closes an empty block; later ones are found by the line break before
/// them. The body keeps a CRLF that follows the dashes and drops a lone LF.
pub open spec fn closing_at(s: Seq<char>, open: int, p: int) -> Option<int> {
    if p == open && matches_at(s, "---\r\n"@, p) {
        Some(3)
    } else if p == open && matches_at(s, "---\n"@, p) {
        Some(4)
    } else if matches_at(s, "\r\n---\r\n"@, p) {
        Some(5)
    } else if matches_at(s, "\n---\n"@, p) {
        Some(5)
    } else if matches_at(s, "\n---\r\n"@, p) {
        Some(4)
    } else if matches_at(s, "\r\n---\n"@, p) {
        Some(6)
    } else {
        None
    }
}

/// The earliest closing delimiter at or after `from`: its start and how far
/// past it the body starts.
pub open spec fn first_closing(s: Seq<char>, open: int, from: int) -> Option<(int, int)>
    decreases s.len() - from,
{
    if from < 0 || from >= s.len() {
        None
    } else if closing_at(s, open, from) is Some {
        Some((from, closing_at(s, open, from)->0))
    } else {
        first_closing(s, open, from + 1)
    }
}

/// Where the YAML block starts and ends and where the body starts, when the
/// text opens with a delimiter line and a closing delimiter follows.
pub open spec fn frontmatter_bounds(s: Seq<char>) -> Option<(int, int, int)> {
    match opening_len(s) {
        Some(open) => match first_closing(s, open, open) {
            Some((close, inc)) => Some((open, close, close + inc)),
            None => None,
        },
        None => None,
    }
}

/// The metadata and body of a prompt text.
///
/// Without a complete frontmatter block, or when the block is not valid
/// YAML, the metadata is empty and the body is the whole text. Otherwise the
/// body follows the block, and the metadata holds the known string entries of
/// the block when it is a mapping.
pub open spec fn parsed_frontmatter(s: Seq<char>) -> ((Option<Seq<char>>, Option<Seq<char>>, Option<Seq<char>>), Seq<char>) {
    match frontmatter_bounds(s) {
        Some((open, close, body_start)) => match yaml_string_entries(s.subrange(open, close)) {
            Some(Some(entries)) => (meta_from_entries(entries), s.skip(body_start)),
            Some(None) => (empty_meta(), s.skip(body_start)),
            None => (empty_meta(), s),
        },
        None => (empty_meta(), s),
    }
}

proof fn lemma_first_closing(s: Seq<char>, open: int, from: int)
    requires
        0 <= from,
    ensures
        first_closing(s, open, from) matches Some((p, inc)) ==> {
            &&& from <= p
            &&& closing_at(s, open, p) == Some(inc)
            &&& p + inc <= s.len()
        },
    decreases s.len() - from,
{
    reveal_strlit("\r\n---\r\n");
    reveal_strlit("\n---\n");
    reveal_strlit("\n---\r\n");
    reveal_strlit("\r\n---\n");
    reveal_strlit("---\r\n");
    reveal_strlit("---\n");
    if from < s.len() && closing_at(s, open, from) is None {
        lemma_first_closing(s, open, from + 1);
    }
}

impl FrontmatterMeta {
    /// No metadata.
    pub fn new() -> (m: Self)
        ensures
            m@ == empty_meta(),
    {
        FrontmatterMeta { description: None, argument_hint: None, model: None }
    }

    /// The value kept under `key`, one of `description`, `argument_hint` and
    /// `model`; `None` for any other key.
    pub fn get(&self, key: &str) -> (r: Option<&String>)
        ensures
            opt_ref_view(r) == meta_lookup(self@, key@),
    {
        if str_equal(key, "description") {
            self.description.as_ref()
        } else if str_equal(key, "argument_hint") {
            self.argument_hint.as_ref()
        } else if str_equal(key, "model") {
            self.model.as_ref()
        } else {
            None
        }
    }

    /// No value is kept.
    pub fn is_empty(&self) -> (r: bool)
        ensures
            r == (self@ == empty_meta()),
    {
        self.description.is_none() && self.argument_hint.is_none() && self.model.is_none()
    }

    /// Record one YAML entry.
    fn insert_entry(&mut self, entry: &YamlEntry)
        ensures
            final(self)@ == meta_with_entry(old(self)@, entry@),
    {
        if let (Some(k), Some(v)) = (&entry.key, &entry.value) {
            let key = if str_equal(k.as_str(), "argument-hint") {
                "argument_hint"
            } else {
                k.as_str()
            };
            if str_equal(key, "description") {
                self.description = Some(v.clone());
            } else if str_equal(key, "argument_hint") {
                self.argument_hint = Some(v.clone());
            } else if str_equal(key, "model") {
                self.model = Some(v.clone());
            }
        }
    }
}

/// The metadata that a mapping's entries give, read in order.
pub fn frontmatter_meta_from_entries(entries: &Vec<YamlEntry>) -> (m: FrontmatterMeta)
    ensures
        m@ == meta_from_entries(entries@.map_values(|e: YamlEntry| e@)),
{
    let ghost views = entries@.map_values(|e: YamlEntry| e@);
    let mut meta = FrontmatterMeta::new();
    let mut k: usize = 0;
    while k < entries.len()
        invariant
            k <= entries@.len(),
            views == entries@.map_values(|e: YamlEntry| e@),
            meta@ == meta_from_entries(views.take(k as int)),
        decreases entries.len() - k,
    {
        meta.insert_entry(&entries[k]);
        assert(views.take(k + 1).drop_last() =~= views.take(k as int));
        k += 1;
    }
    assert(views.take(k as int) =~= views);
    meta
}

fn closing_delimiter_at(s: &[char], open: usize, p: usize, pats: &Vec<Vec<char>>) -> (r: Option<usize>)
    requires
        pats@.len() == 6,
        pats@[0]@ == "\r\n---\r\n"@,
        pats@[1]@ == "\n---\n"@,
        pats@[2]@ == "\n---\r\n"@,
        pats@[3]@ == "\r\n---\n"@,
        pats@[4]@ == "---\r\n"@,
        pats@[5]@ == "---\n"@,
    ensures
        r matches Some(inc) ==> closing_at(s@, open as int, p as int) == Some(inc as int),
        r is None ==> closing_at(s@, open as int, p as int) is None,
{
    if p == open && chars_match_at(s, pats[4].as_slice(), p) {
        Some(3)
    } else if p == open && chars_match_at(s, pats[5].as_slice(), p) {
        Some(4)
    } else if chars_match_at(s, pats[0].as_slice(), p) {
        Some(5)
    } else if chars_match_at(s, pats[1].as_slice(), p) {
        Some(5)
    } else if chars_match_at(s, pats[2].as_slice(), p) {
        Some(4)
    } else if chars_match_at(s, pats[3].as_slice(), p) {
        Some(6)
    } else {
        None
    }
}

/// The YAML block and the body of a prompt text, when the text opens with a
/// `---` line (LF or CRLF) and a later line is exactly `---`; the earliest
/// such closing line ends the block (right after the opening line, it closes
/// an empty block).
pub fn split_frontmatter(input: &str) -> (r: Option<(String, String)>)
    ensures
        r is Some <==> frontmatter_bounds(input@) is Some,
        r matches Some((yaml, body)) ==> {
            let (open, close, body_start) = frontmatter_bounds(input@)->0;
            &&& yaml@ == input@.subrange(open, close)
            &&& body@ == input@.skip(body_start)
        },
{
    let s = chars_of(input);
    let crlf_open = chars_of("---\r\n");
    let lf_open = chars_of("---\n");
    let open: usize = if chars_match_at(s.as_slice(), crlf_open.as_slice(), 0) {
        5
    } else if chars_match_at(s.as_slice(), lf_open.as_slice(), 0) {
        4
    } else {
        return None;
    };
    assert(opening_len(input@) == Some(open as int));
    let pats: Vec<Vec<char>> = vec![
        chars_of("\r\n---\r\n"),
        chars_of("\n---\n"),
        chars_of("\n---\r\n"),
        chars_of("\r\n---\n"),
        chars_of("---\r\n"),
        chars_of("---\n"),
    ];
    let n = s.len();
    let mut p = open;
    loop
        invariant
            n == s@.len(),
            s@ == input@,
            opening_len(input@) == Some(open as int),
            open <= p,
            first_closing(s@, open as int, open as int) == first_closing(s@, open as int, p as int),
            pats@.len() == 6,
            pats@[0]@ == "\r\n---\r\n"@,
            pats@[1]@ == "\n---\n"@,
            pats@[2]@ == "\n---\r\n"@,
            pats@[3]@ == "\r\n---\n"@,
            pats@[4]@ == "---\r\n"@,
            pats@[5]@ == "---\n"@,
        decreases n - p,
    {
        if p >= n {
            return None;
        }
        if let Some(inc) = closing_delimiter_at(s.as_slice(), open, p, &pats) {
            assert(first_closing(s@, open as int, p as int) == Some((p as int, inc as int)));
            proof {
                lemma_first_closing(s@, open as int, open as int);
            }
            assert(frontmatter_bounds(input@) == Some((open as int, p as int, (p + inc) as int)));
            let mut yaml: Vec<char> = Vec::new();
            extend_range(&mut yaml, s.as_slice(), open, p);
            let mut body: Vec<char> = Vec::new();
            extend_range(&mut body, s.as_slice(), p + inc, n);
            assert(body@ =~= input@.skip(p + inc));
            return Some((string_of(yaml.as_slice()), string_of(body.as_slice())));
        }
        p += 1;
    }
}

/// Whether the text holds a complete frontmatter block that is not valid
/// YAML, a block that is then ignored.
pub open spec fn malformed_frontmatter(s: Seq<char>) -> bool {
    match frontmatter_bounds(s) {
        Some((open, close, _)) => yaml_string_entries(s.subrange(open, close)) is None,
        None => false,
    }
}

/// Parse optional YAML frontmatter and return `(meta, body)`.
///
/// - If the input starts with a line that is exactly `---` (LF or CRLF), the
///   next line that is exactly `---` closes a YAML block.
/// - Only string values for the keys `description`, `argument_hint` (or
///   `argument-hint`) and `model` are kept.
/// - On malformed YAML or a missing closing line, the meta is empty and the
///   body is the whole input.
pub fn parse_frontmatter_and_body(input: &str) -> (r: (FrontmatterMeta, String))
    ensures
        (r.0@, r.1@) == parsed_frontmatter(input@),
{
    let (meta, body, _error) = parse_frontmatter_report(input);
    (meta, body)
}

/// `parse_frontmatter_and_body`, together with the YAML error of a block
/// that was ignored because it is not valid YAML, so that a caller can
/// report it.
pub fn parse_frontmatter_report(input: &str) -> (r: (FrontmatterMeta, String, Option<serde_yaml::Error>))
    ensures
        (r.0@, r.1@) == parsed_frontmatter(input@),
        r.2 is Some <==> malformed_frontmatter(input@),
{
    match split_frontmatter(input) {
        None => (FrontmatterMeta::new(), input.to_owned(), None),
        Some((yaml, body)) => match parse_yaml_entries(yaml.as_str()) {
            Ok(Some(entries)) => {
                let meta = frontmatter_meta_from_entries(&entries);
                (meta, body, None)
            },
            Ok(None) => (FrontmatterMeta::new(), body, None),
            Err(error) => (FrontmatterMeta::new(), input.to_owned(), Some(error)),
        },
    }
}

/// A text that does not open with a `---` line has no frontmatter: the
/// metadata is empty and the body is the whole text.
pub proof fn law_no_opening_line(s: Seq<char>)
    requires
        !matches_at(s, "---\r\n"@, 0),
        !matches_at(s, "---\n"@, 0),
    ensures
        parsed_frontmatter(s) == (empty_meta(), s),
{
}

/// A `---` line right after the opening line closes an empty block: the
/// body starts after it.
pub proof fn law_empty_block(t: Seq<char>)
    ensures
        frontmatter_bounds(seq!['-', '-', '-', '\n', '-', '-', '-', '\n'] + t) == Some((4int, 4int, 8int)),
{
    reveal_strlit("---\r\n");
    reveal_strlit("---\n");
    let s = seq!['-', '-', '-', '\n', '-', '-', '-', '\n'] + t;
    assert(s.subrange(0, 4) =~= "---\n"@);
    assert(s.subrange(4, 8) =~= "---\n"@);
    assert(s[3] != "---\r\n"@[3]);
    assert(s[7] != "---\r\n"@[3]);
    assert(opening_len(s) == Some(4int));
    assert(closing_at(s, 4, 4) == Some(4int));
}

/// A frontmatter block that is never closed is ignored: the metadata is
/// empty and the body is the whole text.
pub proof fn law_missing_closing_line(s: Seq<char>)
    requires
        opening_len(s) matches Some(open) && first_closing(s, open, open) is None,
    ensures
        parsed_frontmatter(s) == (empty_meta(), s),
{
}

/// A block that is not valid YAML is ignored: the metadata is empty and the
/// body is the whole text.
pub proof fn law_malformed_yaml_ignored(s: Seq<char>)
    requires
        frontmatter_bounds(s) matches Some((open, close, _)) && yaml_string_entries(s.subrange(open, close)) is None,
    ensures
        parsed_frontmatter(s) == (empty_meta(), s),
{
}

/// An entry whose key is not one of the known keys, or whose key or value is
/// not a string, changes nothing.
pub proof fn law_other_entries_ignored(
    meta: (Option<Seq<char>>, Option<Seq<char>>, Option<Seq<char>>),
    entry: (Option<Seq<char>>, Option<Seq<char>>),
)
    requires
        entry.0 is None || entry.1 is None || {
            let key = normalized_key(entry.0->0);
            key != "description"@ && key != "argument_hint"@ && key != "model"@
        },
    ensures
        meta_with_entry(meta, entry) == meta,
{
}

/// Only entries with a string value under a known key contribute: the
/// metadata of a list of entries is that of its known string entries.
pub proof fn law_meta_from_known_string_entries(entries: Seq<(Option<Seq<char>>, Option<Seq<char>>)>)
    ensures
        meta_from_entries(entries) == meta_from_entries(entries.filter(|e: (Option<Seq<char>>, Option<Seq<char>>)| is_known_string_entry(e))),
    decreases entries.len(),
{
    let f = |e: (Option<Seq<char>>, Option<Seq<char>>)| is_known_string_entry(e);
    if entries.len() > 0 {
        law_meta_from_known_string_entries(entries.drop_last());
        reveal_with_fuel(Seq::filter, 1);
        let last = entries.last();
        if is_known_string_entry(last) {
            assert(entries.filter(f).drop_last() =~= entries.drop_last().filter(f));
        }
    }
}

/// An entry with a string value under a known key.
pub open spec fn is_known_string_entry(e: (Option<Seq<char>>, Option<Seq<char>>)) -> bool {
    e.0 is Some && e.1 is Some && {
        let key = normalized_key(e.0->0);
        key == "description"@ || key == "argument_hint"@ || key == "model"@
    }
}

} // verus!
