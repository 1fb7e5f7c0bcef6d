//! Discovered prompt files: which directory entries are prompts, the
//! metadata of each prompt, and the merge of project and user prompts.

use vstd::prelude::*;

use crate::frontmatter::{opt_view, parse_frontmatter_and_body, parsed_frontmatter};
use crate::paths::{
    component_views, copy_strings, markdown_name, markdown_prompt_name, parent_of,
    stripped, PromptPath,
};
use crate::protocol::{CustomPrompt, CustomPromptMeta, PromptScope};
use crate::text::{
    chars_equal, chars_of, compare_chars, lemma_lex_asymmetric, lemma_lex_total,
    lemma_lex_transitive, lex_lt, str_equal, CharOrder,
};

verus! {

/// A discovered prompt file entry used for internal aggregation.
#[derive(Debug)]
pub struct DiscoveredFile {
    pub path: PromptPath,
    pub name: String,
    /// Directory path relative to the scanned root (empty for files at root).
    pub rel_dir: PromptPath,
    pub content: String,
}

/// What a directory walk does with one entry.
#[derive(Debug)]
pub enum EntryAction {
    /// A directory: walk into it.
    Descend,
    /// Not a prompt: ignore it.
    Skip,
    /// A Markdown file: read it as the prompt with this name.
    Prompt(String),
}

pub open spec fn entry_action_spec(path: (bool, Seq<Seq<char>>), is_dir: bool, is_file: bool) -> Option<Option<Seq<char>>> {
    if is_dir {
        None
    } else if !is_file {
        Some(None)
    } else {
        Some(markdown_name(path))
    }
}

/// Classify a directory entry: directories are walked into, other entries
/// that are not regular files are skipped, and a regular file is a prompt
/// when its extension is `md` in any ASCII case, named by its file stem.
pub fn classify_entry(path: &PromptPath, is_dir: bool, is_file: bool) -> (r: EntryAction)
    ensures
        r is Descend <==> is_dir,
        r is Skip <==> entry_action_spec(path@, is_dir, is_file) == Some(None::<Seq<char>>),
        r matches EntryAction::Prompt(name) ==> entry_action_spec(path@, is_dir, is_file) == Some(Some(name@)),
{
    if is_dir {
        return EntryAction::Descend;
    }
    if !is_file {
        return EntryAction::Skip;
    }
    match markdown_prompt_name(path) {
        Some(name) => EntryAction::Prompt(name),
        None => EntryAction::Skip,
    }
}

/// The directory of `path` relative to `root`: empty when `path` has no
/// parent or its parent does not lie under `root`.
pub open spec fn relative_dir(root: (bool, Seq<Seq<char>>), path: (bool, Seq<Seq<char>>)) -> (bool, Seq<Seq<char>>) {
    match parent_of(path) {
        Some(parent) => match stripped(parent, root) {
            Some(rel) => rel,
            None => (false, Seq::empty()),
        },
        None => (false, Seq::empty()),
    }
}

fn copy_components(c: &Vec<String>, from: usize, to: usize) -> (r: Vec<String>)
    requires
        from <= to <= c@.len(),
    ensures
        r@ == c@.subrange(from as int, to as int),
{
    let mut out: Vec<String> = Vec::new();
    let mut k = from;
    while k < to
        invariant
            from <= k <= to,
            to <= c@.len(),
            out@ == c@.subrange(from as int, k as int),
        decreases to - k,
    {
        out.push(c[k].clone());
        assert(out@ =~= c@.subrange(from as int, k + 1));
        k += 1;
    }
    out
}

/// Whether the components `prefix` start the components `c`.
fn components_start_with(c: &Vec<String>, prefix: &Vec<String>) -> (r: bool)
    ensures
        r == (prefix@.len() <= c@.len() && component_views(c@).take(prefix@.len() as int)
            == component_views(prefix@)),
{
    if prefix.len() > c.len() {
        return false;
    }
    let mut k: usize = 0;
    while k < prefix.len()
        invariant
            prefix@.len() <= c@.len(),
            k <= prefix@.len(),
            forall|m: int| 0 <= m < k ==> c@[m]@ == prefix@[m]@,
        decreases prefix.len() - k,
    {
        let a = chars_of(c[k].as_str());
        let b = chars_of(prefix[k].as_str());
        if !chars_equal(a.as_slice(), b.as_slice()) {
            assert(component_views(c@).take(prefix@.len() as int)[k as int] == c@[k as int]@);
            return false;
        }
        k += 1;
    }
    assert(component_views(c@).take(prefix@.len() as int) =~= component_views(prefix@));
    true
}

/// The directory of `path` relative to `root`, as `parent.strip_prefix(root)`
/// computes it; empty when that fails.
pub fn relative_dir_of(root: &PromptPath, path: &PromptPath) -> (r: PromptPath)
    ensures
        r@ == relative_dir(root@, path@),
{
    let n = path.components.len();
    let empty = PromptPath { absolute: false, components: Vec::new() };
    assert(empty@.1 =~= Seq::<Seq<char>>::empty());
    if n == 0 {
        return empty;
    }
    let parent = copy_components(&path.components, 0, n - 1);
    assert(component_views(parent@) =~= path@.1.drop_last());
    if path.absolute == root.absolute {
        if components_start_with(&parent, &root.components) {
            let rest = copy_components(&parent, root.components.len(), parent.len());
            let r = PromptPath { absolute: false, components: rest };
            assert(component_views(rest@) =~= path@.1.drop_last().skip(root@.1.len() as int));
            r
        } else {
            empty
        }
    } else if !root.absolute && root.components.len() == 0 {
        let r = PromptPath { absolute: path.absolute, components: parent };
        r
    } else {
        empty
    }
}

/// A discovered prompt under `root` at `path`, named `name`, with its text.
pub fn discovered_file(root: &PromptPath, path: PromptPath, name: String, content: String) -> (r: DiscoveredFile)
    ensures
        r.path == path,
        r.name == name,
        r.rel_dir@ == relative_dir(root@, path@),
        r.content == content,
{
    let rel_dir = relative_dir_of(root, &path);
    DiscoveredFile { path, name, rel_dir, content }
}

// ---------------------------------------------------------------------------
// Model presets
// ---------------------------------------------------------------------------

/// Return the default model preset ID used when a prompt does not specify a valid model.
pub fn default_model_id() -> (r: &'static str)
    ensures
        r@ == "gpt-5-medium"@,
{
    "gpt-5-medium"
}

pub open spec fn is_allowed_model_spec(model: Seq<char>) -> bool {
    ||| model == "gpt-5-minimal"@
    ||| model == "gpt-5-low"@
    ||| model == "gpt-5-medium"@
    ||| model == "gpt-5-high"@
}

/// Return true if the provided model preset ID is allowed.
pub fn is_allowed_model(model: &str) -> (r: bool)
    ensures
        r == is_allowed_model_spec(model@),
{
    str_equal(model, "gpt-5-minimal") || str_equal(model, "gpt-5-low") || str_equal(model, "gpt-5-medium")
        || str_equal(model, "gpt-5-high")
}

pub open spec fn validated_model(model: Option<Seq<char>>) -> Seq<char> {
    match model {
        Some(m) => if is_allowed_model_spec(m) {
            m
        } else {
            "gpt-5-medium"@
        },
        None => "gpt-5-medium"@,
    }
}

/// Validate a model value parsed from frontmatter: an allowed preset is
/// kept; a missing or unknown one becomes the default preset.
pub fn validate_or_default_model(model: Option<&String>) -> (r: Option<String>)
    ensures
        r is Some,
        r matches Some(m) ==> m@ == validated_model(match model {
            Some(s) => Some(s@),
            None => None,
        }),
{
    match model {
        Some(m) => if is_allowed_model(m.as_str()) {
            Some(m.clone())
        } else {
            Some(default_model_id().to_owned())
        },
        None => Some(default_model_id().to_owned()),
    }
}

/// Whether validating `model` replaces a value that was given: true exactly
/// when a model is given and it is not an allowed preset (a missing model
/// takes the default without notice).
pub fn model_fell_back(model: Option<&String>) -> (r: bool)
    ensures
        r == (model matches Some(m) && !is_allowed_model_spec(m@)),
{
    match model {
        Some(m) => !is_allowed_model(m.as_str()),
        None => false,
    }
}

/// Validation is stable: a validated model is allowed, and validating it
/// again keeps it.
pub proof fn law_validated_model_is_allowed(model: Option<Seq<char>>)
    ensures
        is_allowed_model_spec(validated_model(model)),
        validated_model(Some(validated_model(model))) == validated_model(model),
{
}

/// Exactly four model presets are allowed: `gpt-5-minimal`, `gpt-5-low`,
/// `gpt-5-medium` and `gpt-5-high`. Validation keeps one of them and turns
/// every other given model (such as `gpt-5`) and a missing one into
/// `gpt-5-medium`.
pub proof fn law_exactly_four_presets(model: Seq<char>)
    ensures
        is_allowed_model_spec(model) <==> (model == "gpt-5-minimal"@ || model == "gpt-5-low"@ || model
            == "gpt-5-medium"@ || model == "gpt-5-high"@),
        validated_model(Some(model)) == (if model == "gpt-5-minimal"@ || model == "gpt-5-low"@ || model
            == "gpt-5-medium"@ || model == "gpt-5-high"@ {
            model
        } else {
            "gpt-5-medium"@
        }),
        validated_model(None) == "gpt-5-medium"@,
{
}

// ---------------------------------------------------------------------------
// Metadata of one prompt
// ---------------------------------------------------------------------------

/// The components of a relative directory, as `Path::components` lists them
/// (a root directory shows as `/`).
pub open spec fn namespace_of(rel_dir: (bool, Seq<Seq<char>>)) -> Seq<Seq<char>> {
    if rel_dir.0 {
        seq!["/"@] + rel_dir.1
    } else {
        rel_dir.1
    }
}

/// The metadata of a discovered prompt in the given scope: description,
/// argument hint and model come from its frontmatter (the model validated),
/// the namespace is its directory relative to the scanned root.
pub open spec fn meta_matches(m: CustomPromptMeta, f: DiscoveredFile, scope: PromptScope) -> bool {
    let fm = parsed_frontmatter(f.content@).0;
    &&& m.name == f.name
    &&& m.path == f.path
    &&& m.scope == scope
    &&& component_views(m.namespace@) == namespace_of(f.rel_dir@)
    &&& opt_view(m.description) == fm.0
    &&& opt_view(m.argument_hint) == fm.1
    &&& opt_view(m.model) == Some(validated_model(fm.2))
}

/// Build the metadata of a discovered prompt for the given scope.
pub fn prompt_meta(item: DiscoveredFile, scope: PromptScope) -> (m: CustomPromptMeta)
    ensures
        meta_matches(m, item, scope),
{
    let (fm, _body) = parse_frontmatter_and_body(item.content.as_str());
    let model = validate_or_default_model(fm.model.as_ref());
    let mut namespace: Vec<String> = Vec::new();
    if item.rel_dir.absolute {
        namespace.push("/".to_owned());
    }
    let tail = copy_strings(&item.rel_dir.components);
    let ghost head = namespace@;
    let mut k: usize = 0;
    while k < tail.len()
        invariant
            k <= tail@.len(),
            namespace@ == head + tail@.take(k as int),
        decreases tail.len() - k,
    {
        namespace.push(tail[k].clone());
        assert(namespace@ =~= head + tail@.take(k + 1));
        k += 1;
    }
    assert(tail@.take(k as int) =~= tail@);
    assert(component_views(namespace@) =~= namespace_of(item.rel_dir@));
    CustomPromptMeta {
        name: item.name,
        path: item.path,
        scope,
        namespace,
        description: fm.description,
        argument_hint: fm.argument_hint,
        model,
    }
}

// ---------------------------------------------------------------------------
// Prompts of one directory
// ---------------------------------------------------------------------------

/// Whether `name` is one of the excluded names.
pub fn is_excluded(name: &String, exclude: &Vec<String>) -> (r: bool)
    ensures
        r == exists|k: int| 0 <= k < exclude@.len() && exclude@[k]@ == name@,
{
    let mut k: usize = 0;
    while k < exclude.len()
        invariant
            k <= exclude@.len(),
            forall|m: int| 0 <= m < k ==> exclude@[m]@ != name@,
        decreases exclude.len() - k,
    {
        if str_equal(exclude[k].as_str(), name.as_str()) {
            return true;
        }
        k += 1;
    }
    false
}

/// Where a prompt named `name` goes in a name-sorted list so that it comes
/// after every prompt whose name is not greater: past the trailing prompts
/// with greater names.
pub open spec fn insertion_point(sorted: Seq<CustomPrompt>, name: Seq<char>) -> int
    decreases sorted.len(),
{
    if sorted.len() > 0 && lex_lt(name, sorted.last().name@) {
        insertion_point(sorted.drop_last(), name)
    } else {
        sorted.len() as int
    }
}

/// The prompts sorted by name, prompts with equal names keeping their order
/// (the order of a stable sort): each prompt in turn inserted after all
/// prompts already placed whose names are not greater.
pub open spec fn sorted_by_name(s: Seq<CustomPrompt>) -> Seq<CustomPrompt>
    decreases s.len(),
{
    if s.len() == 0 {
        Seq::empty()
    } else {
        let rest = sorted_by_name(s.drop_last());
        rest.insert(insertion_point(rest, s.last().name@), s.last())
    }
}

proof fn lemma_insertion_point_bounds(sorted: Seq<CustomPrompt>, name: Seq<char>)
    ensures
        0 <= insertion_point(sorted, name) <= sorted.len(),
        forall|k: int| insertion_point(sorted, name) <= k < sorted.len() ==> lex_lt(name, #[trigger] sorted[k].name@),
        insertion_point(sorted, name) > 0 ==> !lex_lt(name, sorted[insertion_point(sorted, name) - 1].name@),
    decreases sorted.len(),
{
    if sorted.len() > 0 && lex_lt(name, sorted.last().name@) {
        lemma_insertion_point_bounds(sorted.drop_last(), name);
        assert forall|k: int| insertion_point(sorted, name) <= k < sorted.len() implies lex_lt(name, #[trigger] sorted[k].name@) by {
            if k < sorted.len() - 1 {
                assert(sorted[k] == sorted.drop_last()[k]);
            }
        }
    }
}

/// Names never decrease along the sequence.
pub open spec fn names_ascending(s: Seq<CustomPrompt>) -> bool {
    forall|i: int, j: int| 0 <= i < j < s.len() ==> !lex_lt(#[trigger] s[j].name@, #[trigger] s[i].name@)
}

/// Sorting by name yields the prompts in ascending name order, and as many
/// as there were.
pub proof fn law_sorted_by_name_ascending(s: Seq<CustomPrompt>)
    ensures
        names_ascending(sorted_by_name(s)),
        sorted_by_name(s).len() == s.len(),
    decreases s.len(),
{
    if s.len() > 0 {
        let rest = sorted_by_name(s.drop_last());
        law_sorted_by_name_ascending(s.drop_last());
        let x = s.last();
        let pos = insertion_point(rest, x.name@);
        lemma_insertion_point_bounds(rest, x.name@);
        let r = rest.insert(pos, x);
        assert forall|i: int, j: int| 0 <= i < j < r.len() implies !lex_lt(#[trigger] r[j].name@, #[trigger] r[i].name@) by {
            if j < pos {
                assert(r[i] == rest[i] && r[j] == rest[j]);
            } else if j == pos {
                assert(r[i] == rest[i]);
                // rest[i] <= rest[pos - 1] <= x
                if i < pos - 1 {
                    assert(!lex_lt(rest[pos - 1].name@, rest[i].name@));
                }
                lemma_lex_total(x.name@, rest[pos - 1].name@);
                lemma_lex_total(rest[pos - 1].name@, rest[i].name@);
                if lex_lt(x.name@, rest[i].name@) {
                    if rest[pos - 1].name@ == x.name@ {
                    } else if lex_lt(rest[pos - 1].name@, x.name@) {
                        lemma_lex_transitive(rest[pos - 1].name@, x.name@, rest[i].name@);
                    }
                    if i < pos - 1 {
                        if rest[pos - 1].name@ != rest[i].name@ {
                            lemma_lex_asymmetric(rest[pos - 1].name@, rest[i].name@);
                        }
                    }
                }
            } else if i == pos {
                assert(r[j] == rest[j - 1]);
                lemma_lex_asymmetric(x.name@, rest[j - 1].name@);
            } else if i < pos {
                assert(r[i] == rest[i] && r[j] == rest[j - 1]);
            } else {
                assert(r[i] == rest[i - 1] && r[j] == rest[j - 1]);
            }
        }
    }
}

/// In a list sorted by name, a prompt whose name is a proper prefix of
/// another's comes first (`review` before `review-pr`), and an empty name
/// comes before every other name.
pub proof fn law_prefix_name_sorts_first(s: Seq<CustomPrompt>)
    ensures
        forall|i: int, j: int|
            0 <= i < sorted_by_name(s).len() && 0 <= j < sorted_by_name(s).len()
                && #[trigger] sorted_by_name(s)[j].name@.len() > #[trigger] sorted_by_name(s)[i].name@.len()
                && sorted_by_name(s)[j].name@.take(sorted_by_name(s)[i].name@.len() as int)
                == sorted_by_name(s)[i].name@ ==> i < j,
{
    law_sorted_by_name_ascending(s);
    let r = sorted_by_name(s);
    assert forall|i: int, j: int|
        0 <= i < r.len() && 0 <= j < r.len() && #[trigger] r[j].name@.len() > #[trigger] r[i].name@.len()
            && r[j].name@.take(r[i].name@.len() as int) == r[i].name@ implies i < j by {
        crate::text::law_lex_order(r[i].name@, r[j].name@, 0);
        if j < i {
            assert(!lex_lt(r[i].name@, r[j].name@));
        }
    }
}

/// Whether name `a` sorts before name `b`.
fn name_less(a: &String, b: &String) -> (r: bool)
    ensures
        r == lex_lt(a@, b@),
{
    let x = chars_of(a.as_str());
    let y = chars_of(b.as_str());
    compare_chars(x.as_slice(), y.as_slice()) == CharOrder::Less
}

/// The prompts sorted by name; prompts with equal names keep their order.
pub fn sort_prompts_by_name(prompts: Vec<CustomPrompt>) -> (r: Vec<CustomPrompt>)
    ensures
        r@ == sorted_by_name(prompts@),
{
    let ghost s = prompts@;
    let mut out: Vec<CustomPrompt> = Vec::new();
    assert(s.take(0) =~= Seq::<CustomPrompt>::empty());
    for item in it: prompts
        invariant
            s == it.seq(),
            out@ == sorted_by_name(s.take(it.index() as int)),
    {
        let ghost i = it.index() as int;
        assert(item == s[i]);
        let ghost name = item.name@;
        let mut pos = out.len();
        assert(out@.take(pos as int) =~= out@);
        while pos > 0 && name_less(&item.name, &out[pos - 1].name)
            invariant
                pos <= out@.len(),
                name == item.name@,
                insertion_point(out@, name) == insertion_point(out@.take(pos as int), name),
            decreases pos,
        {
            assert(out@.take(pos as int).drop_last() =~= out@.take(pos - 1));
            assert(out@.take(pos as int).last() == out@[pos - 1]);
            pos -= 1;
        }
        proof {
            if pos > 0 {
                assert(out@.take(pos as int).last() == out@[pos - 1]);
            } else {
                assert(out@.take(0).len() == 0);
            }
            assert(insertion_point(out@.take(pos as int), name) == pos);
            assert(s.take(i + 1).drop_last() =~= s.take(i));
            assert(s.take(i + 1).last() == item);
        }
        out.insert(pos, item);
    }
    assert(s.take(s.len() as int) =~= s);
    out
}

} // verus!
