//! Paths as the lists of their components, and the prompt directories
//! derived from them.

use vstd::prelude::*;

use crate::text::{chars_equal, chars_of, chars_eq_ignore_ascii_case, eq_ignore_ascii_case};

verus! {

/// A filesystem path as `Path::components` yields it on Unix: whether it
/// starts at the root directory, then its other components in order (`.`
/// only as the first component of a relative path, `..` for a parent).
#[derive(Debug)]
pub struct PromptPath {
    pub absolute: bool,
    pub components: Vec<String>,
}

pub open spec fn component_views(c: Seq<String>) -> Seq<Seq<char>> {
    c.map_values(|s: String| s@)
}

impl View for PromptPath {
    type V = (bool, Seq<Seq<char>>);

    open spec fn view(&self) -> Self::V {
        (self.absolute, component_views(self.components@))
    }
}

/// `Path::parent`: the path without its last component; `None` for the
/// root and for the empty path.
pub open spec fn parent_of(p: (bool, Seq<Seq<char>>)) -> Option<(bool, Seq<Seq<char>>)> {
    if p.1.len() > 0 {
        Some((p.0, p.1.drop_last()))
    } else {
        None
    }
}

/// `Path::file_name`: the last component, unless there is none or it is
/// `.` or `..`.
pub open spec fn file_name_of(p: (bool, Seq<Seq<char>>)) -> Option<Seq<char>> {
    if p.1.len() > 0 && p.1.last() != "."@ && p.1.last() != ".."@ {
        Some(p.1.last())
    } else {
        None
    }
}

/// `Path::join` with a relative path: its components appended.
pub open spec fn joined(p: (bool, Seq<Seq<char>>), rel: Seq<Seq<char>>) -> (bool, Seq<Seq<char>>) {
    (p.0, p.1 + rel)
}

/// The `k`-th entry of `Path::ancestors` (the path itself is the 0-th): the
/// path without its last `k` components.
pub open spec fn ancestor(p: (bool, Seq<Seq<char>>), k: int) -> Option<(bool, Seq<Seq<char>>)> {
    if 0 <= k <= p.1.len() {
        Some((p.0, p.1.take(p.1.len() - k)))
    } else {
        None
    }
}

/// `Path::strip_prefix`: what follows `base` in `p`, when `p` starts with
/// the components of `base`.
pub open spec fn stripped(p: (bool, Seq<Seq<char>>), base: (bool, Seq<Seq<char>>)) -> Option<(bool, Seq<Seq<char>>)> {
    if p.0 == base.0 {
        if base.1.len() <= p.1.len() && p.1.take(base.1.len() as int) == base.1 {
            Some((false, p.1.skip(base.1.len() as int)))
        } else {
            None
        }
    } else if !base.0 && base.1.len() == 0 {
        Some(p)
    } else {
        None
    }
}

/// The largest `m <= depth` such that the first `m` components end with
/// `.codex/prompts`.
pub open spec fn prompts_dir_depth(c: Seq<Seq<char>>, depth: int) -> Option<int>
    decreases depth,
{
    if depth < 2 || depth > c.len() {
        None
    } else if c[depth - 1] == "prompts"@ && c[depth - 2] == ".codex"@ {
        Some(depth)
    } else {
        prompts_dir_depth(c, depth - 1)
    }
}

/// The project root for a working directory: the Git repository root when
/// there is one; else, when the directory lies anywhere under
/// `<project>/.codex/prompts`, that `<project>` (the innermost such); else
/// the directory itself.
pub open spec fn project_root_spec(cwd: (bool, Seq<Seq<char>>), git_root: Option<(bool, Seq<Seq<char>>)>) -> (bool, Seq<Seq<char>>) {
    match git_root {
        Some(r) => r,
        None => match prompts_dir_depth(cwd.1, cwd.1.len() as int) {
            Some(m) => (cwd.0, cwd.1.take(m - 2)),
            None => cwd,
        },
    }
}

pub open spec fn opt_path_view(p: Option<PromptPath>) -> Option<(bool, Seq<Seq<char>>)> {
    match p {
        Some(q) => Some(q@),
        None => None,
    }
}

/// The extension of a file name, as `Path::extension` gives it: what
/// follows the last `.`, unless there is no `.` or the only `.` is the
/// first character.
pub open spec fn extension_of(name: Seq<char>) -> Option<Seq<char>> {
    match last_dot(name, name.len() as int) {
        Some(i) => if i == 0 || name == ".."@ {
            None
        } else {
            Some(name.skip(i + 1))
        },
        None => None,
    }
}

/// The stem of a file name, as `Path::file_stem` gives it: what precedes the
/// last `.`, or the whole name when there is no extension.
pub open spec fn stem_of(name: Seq<char>) -> Seq<char> {
    match last_dot(name, name.len() as int) {
        Some(i) => if i == 0 || name == ".."@ {
            name
        } else {
            name.take(i)
        },
        None => name,
    }
}

/// Index of the last `.` in `name[..end]`.
pub open spec fn last_dot(name: Seq<char>, end: int) -> Option<int>
    decreases end,
{
    if end <= 0 || end > name.len() {
        None
    } else if name[end - 1] == '.' {
        Some(end - 1)
    } else {
        last_dot(name, end - 1)
    }
}

/// The prompt name of a path: its file stem, when its extension is `md` in
/// any ASCII case.
pub open spec fn markdown_name(p: (bool, Seq<Seq<char>>)) -> Option<Seq<char>> {
    match file_name_of(p) {
        Some(name) => match extension_of(name) {
            Some(ext) => if eq_ignore_ascii_case(ext, "md"@) {
                Some(stem_of(name))
            } else {
                None
            },
            None => None,
        },
        None => None,
    }
}

proof fn lemma_last_dot(name: Seq<char>, end: int)
    ensures
        last_dot(name, end) matches Some(i) ==> 0 <= i < end && i < name.len() && name[i] == '.',
    decreases end,
{
    if 0 < end <= name.len() && name[end - 1] != '.' {
        lemma_last_dot(name, end - 1);
    }
}

fn strings_of(names: &[&str]) -> (r: Vec<String>)
    ensures
        r@.len() == names@.len(),
        forall|k: int| 0 <= k < names@.len() ==> #[trigger] r@[k]@ == names@[k]@,
{
    let mut out: Vec<String> = Vec::new();
    let mut k: usize = 0;
    while k < names.len()
        invariant
            k <= names@.len(),
            out@.len() == k,
            forall|m: int| 0 <= m < k ==> #[trigger] out@[m]@ == names@[m]@,
        decreases names.len() - k,
    {
        out.push(names[k].to_owned());
        k += 1;
    }
    out
}

/// Copy of a list of strings.
pub fn copy_strings(v: &Vec<String>) -> (r: Vec<String>)
    ensures
        r@ == v@,
{
    let mut out: Vec<String> = Vec::new();
    let mut k: usize = 0;
    while k < v.len()
        invariant
            k <= v@.len(),
            out@ == v@.take(k as int),
        decreases v.len() - k,
    {
        out.push(v[k].clone());
        assert(out@ =~= v@.take(k + 1));
        k += 1;
    }
    assert(v@.take(k as int) =~= v@);
    out
}

impl PromptPath {
    /// A copy of this path.
    pub fn duplicate(&self) -> (r: PromptPath)
        ensures
            r@ == self@,
    {
        PromptPath { absolute: self.absolute, components: copy_strings(&self.components) }
    }

    /// This path with the components of a relative path appended
    /// (`Path::join`).
    pub fn join_relative(&self, rel: &[&str]) -> (r: PromptPath)
        ensures
            r@ == joined(self@, rel@.map_values(|s: &str| s@)),
    {
        let mut components = copy_strings(&self.components);
        let extra = strings_of(rel);
        let mut k: usize = 0;
        let ghost base = components@;
        while k < extra.len()
            invariant
                k <= extra@.len(),
                components@ == base + extra@.take(k as int),
            decreases extra.len() - k,
        {
            components.push(extra[k].clone());
            assert(components@ =~= base + extra@.take(k + 1));
            k += 1;
        }
        let r = PromptPath { absolute: self.absolute, components };
        assert(extra@.take(k as int) =~= extra@);
        assert(component_views(r.components@) =~= component_views(self.components@) + rel@.map_values(|s: &str| s@));
        r
    }
}

/// Return the project-level prompts directory for a given project root.
/// The directory layout is `PROJECT_ROOT/.codex/prompts`.
pub fn project_prompts_dir(project_root: &PromptPath) -> (r: PromptPath)
    ensures
        r@ == joined(project_root@, seq![".codex"@, "prompts"@]),
{
    let r = project_root.join_relative(&[".codex", "prompts"]);
    assert(seq![".codex", "prompts"].map_values(|s: &str| s@) =~= seq![".codex"@, "prompts"@]);
    r
}

/// The default prompts directory, `$CODEX_HOME/prompts`, given where
/// `CODEX_HOME` resolved to; `None` when it could not be resolved.
pub fn default_prompts_dir(codex_home: Option<PromptPath>) -> (r: Option<PromptPath>)
    ensures
        opt_path_view(r) == match opt_path_view(codex_home) {
            Some(h) => Some(joined(h, seq!["prompts"@])),
            None => None,
        },
{
    match codex_home {
        Some(home) => {
            let r = home.join_relative(&["prompts"]);
            assert(seq!["prompts"].map_values(|s: &str| s@) =~= seq!["prompts"@]);
            Some(r)
        },
        None => None,
    }
}

/// The project root for `cwd`: the Git repository root when one was found;
/// otherwise, if `cwd` is anywhere under `<project>/.codex/prompts`,
/// `<project>`; otherwise `cwd` itself.
pub fn project_root_from_cwd(cwd: &PromptPath, git_root: Option<PromptPath>) -> (r: PromptPath)
    ensures
        r@ == project_root_spec(cwd@, opt_path_view(git_root)),
{
    if let Some(root) = git_root {
        return root;
    }
    assert(opt_path_view(git_root) is None);
    let ghost c = cwd@.1;
    let prompts = chars_of("prompts");
    let codex = chars_of(".codex");
    let mut depth = cwd.components.len();
    while depth >= 2
        invariant
            opt_path_view(git_root) is None,
            depth <= c.len(),
            c == cwd@.1,
            c.len() == cwd.components@.len(),
            prompts@ == "prompts"@,
            codex@ == ".codex"@,
            prompts_dir_depth(c, c.len() as int) == prompts_dir_depth(c, depth as int),
        decreases depth,
    {
        let last = chars_of(cwd.components[depth - 1].as_str());
        let before = chars_of(cwd.components[depth - 2].as_str());
        if chars_equal(last.as_slice(), prompts.as_slice()) && chars_equal(before.as_slice(), codex.as_slice()) {
            let mut components: Vec<String> = Vec::new();
            let mut k: usize = 0;
            while k < depth - 2
                invariant
                    k <= depth - 2,
                    depth <= cwd.components@.len(),
                    components@ == cwd.components@.take(k as int),
                decreases depth - 2 - k,
            {
                components.push(cwd.components[k].clone());
                assert(components@ =~= cwd.components@.take(k + 1));
                k += 1;
            }
            let r = PromptPath { absolute: cwd.absolute, components };
            assert(c[depth - 1] == cwd.components@[depth - 1]@);
            assert(c[depth - 2] == cwd.components@[depth - 2]@);
            assert(prompts_dir_depth(c, depth as int) == Some(depth as int));
            assert(component_views(r.components@) =~= c.take(depth - 2));
            assert(r@ == project_root_spec(cwd@, None));
            return r;
        }
        depth -= 1;
    }
    cwd.duplicate()
}

/// The directory `<ancestor>/user/prompts`, where `<ancestor>` is three
/// levels above `cwd` (the layout `<tmp>/{user/prompts,
/// project/.codex/prompts}`); `None` when `cwd` has no such ancestor.
/// Whether it exists is for the caller to check.
pub fn fallback_user_prompts_candidate(cwd: &PromptPath) -> (r: Option<PromptPath>)
    ensures
        opt_path_view(r) == match ancestor(cwd@, 3) {
            Some(a) => Some(joined(a, seq!["user"@, "prompts"@])),
            None => None,
        },
{
    let n = cwd.components.len();
    if n < 3 {
        return None;
    }
    let mut components: Vec<String> = Vec::new();
    let mut k: usize = 0;
    while k < n - 3
        invariant
            n == cwd.components@.len(),
            k <= n - 3,
            components@ == cwd.components@.take(k as int),
        decreases n - 3 - k,
    {
        components.push(cwd.components[k].clone());
        assert(components@ =~= cwd.components@.take(k + 1));
        k += 1;
    }
    let top = PromptPath { absolute: cwd.absolute, components };
    assert(component_views(top.components@) =~= cwd@.1.take(cwd@.1.len() - 3));
    let r = top.join_relative(&["user", "prompts"]);
    assert(seq!["user", "prompts"].map_values(|s: &str| s@) =~= seq!["user"@, "prompts"@]);
    Some(r)
}

/// The prompt name of a path: its file stem, when its extension is `md` in
/// any ASCII case; `None` otherwise.
pub fn markdown_prompt_name(path: &PromptPath) -> (r: Option<String>)
    ensures
        opt_string_view(r) == markdown_name(path@),
{
    let n = path.components.len();
    if n == 0 {
        return None;
    }
    let name = chars_of(path.components[n - 1].as_str());
    let dot = chars_of(".");
    let dotdot = chars_of("..");
    if chars_equal(name.as_slice(), dot.as_slice()) || chars_equal(name.as_slice(), dotdot.as_slice()) {
        return None;
    }
    assert(file_name_of(path@) == Some(name@));
    // Find the last dot.
    let mut end = name.len();
    while end > 0 && name[end - 1] != '.'
        invariant
            end <= name@.len(),
            last_dot(name@, name@.len() as int) == last_dot(name@, end as int),
        decreases end,
    {
        end -= 1;
    }
    proof {
        lemma_last_dot(name@, name@.len() as int);
    }
    if end <= 1 {
        // No dot, or the only dot starts the name: no extension.
        return None;
    }
    let dot_at = end - 1;
    assert(last_dot(name@, name@.len() as int) == Some(dot_at as int));
    let md = chars_of("md");
    if !chars_eq_ignore_ascii_case(md.as_slice(), name.as_slice(), end, name.len()) {
        proof {
            crate::paths::lemma_eq_ci_symmetric(md@, name@.skip(end as int));
            assert(name@.subrange(end as int, name@.len() as int) =~= name@.skip(end as int));
        }
        return None;
    }
    proof {
        crate::paths::lemma_eq_ci_symmetric(md@, name@.skip(end as int));
        assert(name@.subrange(end as int, name@.len() as int) =~= name@.skip(end as int));
    }
    let mut stem: Vec<char> = Vec::new();
    crate::text::extend_range(&mut stem, name.as_slice(), 0, dot_at);
    assert(stem@ =~= name@.take(dot_at as int));
    Some(crate::text::string_of(stem.as_slice()))
}

/// A directory anywhere under a project's prompts directory resolves, when
/// there is no Git repository, to that project's root (provided the path
/// below the prompts directory holds no `.codex/prompts` of its own).
pub proof fn law_project_root_of_prompts_subdir(root: (bool, Seq<Seq<char>>), ns: Seq<Seq<char>>)
    requires
        forall|k: int| 0 <= k < ns.len() - 1 ==> !(ns[k] == ".codex"@ && #[trigger] ns[k + 1] == "prompts"@),
    ensures
        project_root_spec(joined(joined(root, seq![".codex"@, "prompts"@]), ns), None) == root,
{
    let c = root.1 + seq![".codex"@, "prompts"@] + ns;
    let base: int = root.1.len() + 2int;
    lemma_prompts_dir_depth_scan(c, c.len() as int, base, ns);
    assert(c.take(base - 2) =~= root.1);
}

proof fn lemma_prompts_dir_depth_scan(c: Seq<Seq<char>>, depth: int, base: int, ns: Seq<Seq<char>>)
    requires
        2 <= base <= depth <= c.len(),
        c.len() == base + ns.len(),
        c[base - 1] == "prompts"@,
        c[base - 2] == ".codex"@,
        forall|k: int| 0 <= k < c.len() - base ==> c[base + k] == ns[k],
        forall|k: int| 0 <= k < ns.len() - 1 ==> !(ns[k] == ".codex"@ && #[trigger] ns[k + 1] == "prompts"@),
    ensures
        prompts_dir_depth(c, depth) == Some(base),
    decreases depth,
{
    if depth > base {
        if depth == base + 1 {
            assert(c[depth - 2] == "prompts"@);
            reveal_strlit("prompts");
            reveal_strlit(".codex");
            assert(c[depth - 2] != ".codex"@) by {
                assert("prompts"@[0] != ".codex"@[0]);
            }
        } else {
            assert(c[depth - 2] == ns[depth - 2 - base]);
            assert(c[depth - 1] == ns[depth - 1 - base]);
            assert(!(ns[depth - 2 - base] == ".codex"@ && ns[depth - 2 - base + 1] == "prompts"@));
        }
        lemma_prompts_dir_depth_scan(c, depth - 1, base, ns);
    }
}

pub open spec fn opt_string_view(s: Option<String>) -> Option<Seq<char>> {
    match s {
        Some(v) => Some(v@),
        None => None,
    }
}

pub proof fn lemma_eq_ci_symmetric(a: Seq<char>, b: Seq<char>)
    ensures
        eq_ignore_ascii_case(a, b) == eq_ignore_ascii_case(b, a),
{
}

} // verus!
