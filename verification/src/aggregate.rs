//! The merge of project and user prompts: one prompt per name, the project
//! prompt winning on a collision, listed in name order.

use vstd::prelude::*;

use crate::discovery::{meta_matches, prompt_meta, DiscoveredFile};
use crate::frontmatter::{parse_frontmatter_and_body, parsed_frontmatter};
use crate::protocol::{CustomPrompt, CustomPromptMeta, PromptScope};
use crate::text::{
    chars_of, compare_chars, lemma_lex_irreflexive, lemma_lex_transitive,
    lex_lt, CharOrder,
};

verus! {

pub open spec fn file_names(v: Seq<DiscoveredFile>) -> Seq<Seq<char>> {
    v.map_values(|f: DiscoveredFile| f.name@)
}

/// Project prompts keyed by name, read in order: a later prompt with a name
/// replaces an earlier one.
pub open spec fn project_selection(p: Seq<Seq<char>>) -> Map<Seq<char>, (PromptScope, int)>
    decreases p.len(),
{
    if p.len() == 0 {
        Map::empty()
    } else {
        project_selection(p.drop_last()).insert(p.last(), (PromptScope::Project, p.len() - 1))
    }
}

/// Project prompts, then user prompts keyed by name: a user prompt is taken
/// only under a name that no prompt has taken yet.
pub open spec fn merged_selection(p: Seq<Seq<char>>, u: Seq<Seq<char>>) -> Map<Seq<char>, (PromptScope, int)>
    decreases u.len(),
{
    if u.len() == 0 {
        project_selection(p)
    } else {
        let m = merged_selection(p, u.drop_last());
        if m.contains_key(u.last()) {
            m
        } else {
            m.insert(u.last(), (PromptScope::User, u.len() - 1))
        }
    }
}

/// The file that a choice designates.
pub open spec fn chosen_file(p: Seq<DiscoveredFile>, u: Seq<DiscoveredFile>, c: (PromptScope, int)) -> DiscoveredFile {
    if c.0 == PromptScope::Project {
        p[c.1]
    } else {
        u[c.1]
    }
}

pub open spec fn entry_names(r: Seq<(PromptScope, DiscoveredFile)>) -> Seq<Seq<char>> {
    r.map_values(|e: (PromptScope, DiscoveredFile)| e.1.name@)
}

pub open spec fn strictly_sorted(names: Seq<Seq<char>>) -> bool {
    forall|i: int, j: int| 0 <= i < j < names.len() ==> lex_lt(#[trigger] names[i], #[trigger] names[j])
}

/// `r` lists the selection `m` once per name, in name order, each entry with
/// its scope and the file chosen for its name.
pub open spec fn lists_selection(
    r: Seq<(PromptScope, DiscoveredFile)>,
    m: Map<Seq<char>, (PromptScope, int)>,
    p: Seq<DiscoveredFile>,
    u: Seq<DiscoveredFile>,
) -> bool {
    &&& forall|k: int|
        #![trigger r[k]]
        0 <= k < r.len() ==> {
            &&& m.contains_key(r[k].1.name@)
            &&& m[r[k].1.name@].0 == r[k].0
            &&& chosen_file(p, u, m[r[k].1.name@]) == r[k].1
        }
    &&& forall|n: Seq<char>| #[trigger] m.contains_key(n) ==> exists|k: int| 0 <= k < r.len() && r[k].1.name@ == n
    &&& strictly_sorted(entry_names(r))
}

/// The facts `locate` gives about where a name belongs.
pub open spec fn located(r: Seq<(PromptScope, DiscoveredFile)>, name: Seq<char>, pos: int, found: bool) -> bool {
    &&& 0 <= pos <= r.len()
    &&& forall|k: int| 0 <= k < pos ==> lex_lt(#[trigger] r[k].1.name@, name)
    &&& found ==> pos < r.len() && r[pos].1.name@ == name
    &&& !found ==> forall|k: int| pos <= k < r.len() ==> lex_lt(name, #[trigger] r[k].1.name@)
}

/// Where `name` belongs in the name-sorted `r`, and whether it is there.
fn locate(r: &Vec<(PromptScope, DiscoveredFile)>, name: &[char]) -> (res: (usize, bool))
    requires
        strictly_sorted(entry_names(r@)),
    ensures
        located(r@, name@, res.0 as int, res.1),
{
    let mut k: usize = 0;
    while k < r.len()
        invariant
            k <= r@.len(),
            strictly_sorted(entry_names(r@)),
            forall|m: int| 0 <= m < k ==> lex_lt(#[trigger] r@[m].1.name@, name@),
        decreases r.len() - k,
    {
        let here = chars_of(r[k].1.name.as_str());
        match compare_chars(here.as_slice(), name) {
            CharOrder::Less => {
                k += 1;
            },
            CharOrder::Equal => {
                return (k, true);
            },
            CharOrder::Greater => {
                assert forall|m: int| k <= m < r@.len() implies lex_lt(name@, #[trigger] r@[m].1.name@) by {
                    if m > k {
                        assert(entry_names(r@)[k as int] == r@[k as int].1.name@);
                        assert(entry_names(r@)[m] == r@[m].1.name@);
                        lemma_lex_transitive(name@, r@[k as int].1.name@, r@[m].1.name@);
                    }
                }
                return (k, false);
            },
        }
    }
    (k, false)
}

/// `found` tells whether the selection already holds the name.
proof fn lemma_located_membership(
    r: Seq<(PromptScope, DiscoveredFile)>,
    m: Map<Seq<char>, (PromptScope, int)>,
    p: Seq<DiscoveredFile>,
    u: Seq<DiscoveredFile>,
    name: Seq<char>,
    pos: int,
    found: bool,
)
    requires
        lists_selection(r, m, p, u),
        located(r, name, pos, found),
    ensures
        found == m.contains_key(name),
{
    if found {
        assert(m.contains_key(r[pos].1.name@));
    } else if m.contains_key(name) {
        let k = choose|k: int| 0 <= k < r.len() && r[k].1.name@ == name;
        lemma_lex_irreflexive(name);
        if k < pos {
            assert(lex_lt(r[k].1.name@, name));
        } else {
            assert(lex_lt(name, r[k].1.name@));
        }
    }
}

/// Inserting a new name where it belongs keeps the listing exact.
proof fn lemma_insert_entry(
    r: Seq<(PromptScope, DiscoveredFile)>,
    m: Map<Seq<char>, (PromptScope, int)>,
    p: Seq<DiscoveredFile>,
    u: Seq<DiscoveredFile>,
    pos: int,
    e: (PromptScope, DiscoveredFile),
    c: (PromptScope, int),
)
    requires
        lists_selection(r, m, p, u),
        located(r, e.1.name@, pos, false),
        c.0 == e.0,
        chosen_file(p, u, c) == e.1,
    ensures
        lists_selection(r.insert(pos, e), m.insert(e.1.name@, c), p, u),
{
    let r2 = r.insert(pos, e);
    let m2 = m.insert(e.1.name@, c);
    let n = e.1.name@;
    lemma_lex_irreflexive(n);
    assert forall|k: int| #![trigger r2[k]] 0 <= k < r2.len() implies {
        &&& m2.contains_key(r2[k].1.name@)
        &&& m2[r2[k].1.name@].0 == r2[k].0
        &&& chosen_file(p, u, m2[r2[k].1.name@]) == r2[k].1
    } by {
        if k < pos {
            assert(r2[k] == r[k]);
            assert(lex_lt(r[k].1.name@, n));
        } else if k > pos {
            assert(r2[k] == r[k - 1]);
            assert(lex_lt(n, r[k - 1].1.name@));
        }
    }
    assert forall|x: Seq<char>| #[trigger] m2.contains_key(x) implies exists|k: int| 0 <= k < r2.len() && r2[k].1.name@ == x by {
        if x == n {
            assert(r2[pos].1.name@ == x);
        } else {
            assert(m.contains_key(x));
            let k = choose|k: int| 0 <= k < r.len() && r[k].1.name@ == x;
            if k < pos {
                assert(r2[k] == r[k]);
            } else {
                assert(r2[k + 1] == r[k]);
            }
        }
    }
    let names = entry_names(r);
    let names2 = entry_names(r2);
    assert forall|i: int, j: int| 0 <= i < j < names2.len() implies lex_lt(#[trigger] names2[i], #[trigger] names2[j]) by {
        assert(names2[i] == r2[i].1.name@);
        assert(names2[j] == r2[j].1.name@);
        if i < pos && j < pos {
            assert(names[i] == r[i].1.name@ && names[j] == r[j].1.name@);
        } else if i < pos && j == pos {
        } else if i < pos && j > pos {
            assert(names[i] == r[i].1.name@ && names[j - 1] == r[j - 1].1.name@);
        } else if i == pos {
        } else {
            assert(names[i - 1] == r[i - 1].1.name@ && names[j - 1] == r[j - 1].1.name@);
        }
    }
}

/// Replacing the entry that holds a name keeps the listing exact.
proof fn lemma_replace_entry(
    r: Seq<(PromptScope, DiscoveredFile)>,
    m: Map<Seq<char>, (PromptScope, int)>,
    p: Seq<DiscoveredFile>,
    u: Seq<DiscoveredFile>,
    pos: int,
    e: (PromptScope, DiscoveredFile),
    c: (PromptScope, int),
)
    requires
        lists_selection(r, m, p, u),
        located(r, e.1.name@, pos, true),
        c.0 == e.0,
        chosen_file(p, u, c) == e.1,
    ensures
        lists_selection(r.update(pos, e), m.insert(e.1.name@, c), p, u),
{
    let r2 = r.update(pos, e);
    let m2 = m.insert(e.1.name@, c);
    let n = e.1.name@;
    let names = entry_names(r);
    assert forall|k: int| #![trigger r2[k]] 0 <= k < r2.len() implies {
        &&& m2.contains_key(r2[k].1.name@)
        &&& m2[r2[k].1.name@].0 == r2[k].0
        &&& chosen_file(p, u, m2[r2[k].1.name@]) == r2[k].1
    } by {
        if k != pos {
            assert(r2[k] == r[k]);
            assert(names[k] == r[k].1.name@ && names[pos] == r[pos].1.name@);
            lemma_lex_irreflexive(n);
            if k < pos {
                assert(lex_lt(names[k], names[pos]));
            } else {
                assert(lex_lt(names[pos], names[k]));
            }
        }
    }
    assert forall|x: Seq<char>| #[trigger] m2.contains_key(x) implies exists|k: int| 0 <= k < r2.len() && r2[k].1.name@ == x by {
        if x == n {
            assert(r2[pos].1.name@ == x);
        } else {
            assert(m.contains_key(x));
            let k = choose|k: int| 0 <= k < r.len() && r[k].1.name@ == x;
            assert(r2[k] == r[k]);
        }
    }
    assert(entry_names(r2) =~= names);
}

/// The prompts of both scopes, one per name, the project prompt winning on a
/// collision (among project prompts the last one found, among user prompts
/// the first), each with its scope, sorted by name.
pub fn select_prompt_files(project: Vec<DiscoveredFile>, user: Vec<DiscoveredFile>) -> (r: Vec<(PromptScope, DiscoveredFile)>)
    ensures
        lists_selection(r@, merged_selection(file_names(project@), file_names(user@)), project@, user@),
{
    let ghost p = project@;
    let ghost u = user@;
    let ghost pn = file_names(p);
    let ghost un = file_names(u);
    let mut r: Vec<(PromptScope, DiscoveredFile)> = Vec::new();
    assert(lists_selection(r@, project_selection(pn.take(0)), p, u)) by {
        assert(pn.take(0).len() == 0);
        assert(entry_names(r@) =~= Seq::<Seq<char>>::empty());
    }
    for item in it: project
        invariant
            p == it.seq(),
            pn == file_names(p),
            lists_selection(r@, project_selection(pn.take(it.index() as int)), p, u),
    {
        let ghost i = it.index() as int;
        let ghost m = project_selection(pn.take(i));
        assert(item == p[i]);
        let name = chars_of(item.name.as_str());
        let (pos, found) = locate(&r, name.as_slice());
        let ghost old_r = r@;
        let ghost e = (PromptScope::Project, item);
        assert(pn.take(i + 1).drop_last() =~= pn.take(i));
        assert(pn.take(i + 1).last() == item.name@);
        if found {
            r.set(pos, (PromptScope::Project, item));
            proof {
                lemma_replace_entry(old_r, m, p, u, pos as int, e, (PromptScope::Project, i));
            }
        } else {
            r.insert(pos, (PromptScope::Project, item));
            proof {
                lemma_insert_entry(old_r, m, p, u, pos as int, e, (PromptScope::Project, i));
            }
        }
    }
    assert(pn.take(p.len() as int) =~= pn);
    assert(lists_selection(r@, merged_selection(pn, un.take(0)), p, u)) by {
        assert(un.take(0).len() == 0);
    }
    for item in it: user
        invariant
            u == it.seq(),
            un == file_names(u),
            pn == file_names(p),
            lists_selection(r@, merged_selection(pn, un.take(it.index() as int)), p, u),
    {
        let ghost j = it.index() as int;
        let ghost m = merged_selection(pn, un.take(j));
        assert(item == u[j]);
        let name = chars_of(item.name.as_str());
        let (pos, found) = locate(&r, name.as_slice());
        let ghost old_r = r@;
        let ghost e = (PromptScope::User, item);
        assert(un.take(j + 1).drop_last() =~= un.take(j));
        assert(un.take(j + 1).last() == item.name@);
        proof {
            lemma_located_membership(old_r, m, p, u, name@, pos as int, found);
        }
        if !found {
            r.insert(pos, (PromptScope::User, item));
            proof {
                lemma_insert_entry(old_r, m, p, u, pos as int, e, (PromptScope::User, j));
            }
        }
    }
    assert(un.take(u.len() as int) =~= un);
    r
}

/// `names` lists the names of the selection `m` once each, in name order.
pub open spec fn lists_names(names: Seq<Seq<char>>, m: Map<Seq<char>, (PromptScope, int)>) -> bool {
    &&& forall|k: int| 0 <= k < names.len() ==> m.contains_key(#[trigger] names[k])
    &&& forall|n: Seq<char>| #[trigger] m.contains_key(n) ==> exists|k: int| 0 <= k < names.len() && names[k] == n
    &&& strictly_sorted(names)
}

/// The files of a prompt directory listing, one per name, in name order.
pub open spec fn lists_files(r: Seq<DiscoveredFile>, m: Map<Seq<char>, (PromptScope, int)>, p: Seq<DiscoveredFile>, u: Seq<DiscoveredFile>) -> bool {
    &&& lists_names(file_names(r), m)
    &&& forall|k: int| #![trigger r[k]] 0 <= k < r.len() ==> chosen_file(p, u, m[r[k].name@]) == r[k]
}

/// The prompts of a listing, one per name, in name order; each prompt's
/// content is the body of its file, after any frontmatter.
pub open spec fn lists_prompts(r: Seq<CustomPrompt>, m: Map<Seq<char>, (PromptScope, int)>, p: Seq<DiscoveredFile>, u: Seq<DiscoveredFile>) -> bool {
    &&& lists_names(r.map_values(|c: CustomPrompt| c.name@), m)
    &&& forall|k: int|
        #![trigger r[k]]
        0 <= k < r.len() ==> {
            let f = chosen_file(p, u, m[r[k].name@]);
            &&& r[k].name == f.name
            &&& r[k].path == f.path
            &&& r[k].content@ == parsed_frontmatter(f.content@).1
        }
}

/// The metadata of a listing, one per name, in name order.
pub open spec fn lists_meta(r: Seq<CustomPromptMeta>, m: Map<Seq<char>, (PromptScope, int)>, p: Seq<DiscoveredFile>, u: Seq<DiscoveredFile>) -> bool {
    &&& lists_names(r.map_values(|c: CustomPromptMeta| c.name@), m)
    &&& forall|k: int|
        #![trigger r[k]]
        0 <= k < r.len() ==> meta_matches(r[k], chosen_file(p, u, m[r[k].name@]), m[r[k].name@].0)
}

proof fn lemma_names_of_selection(
    r: Seq<(PromptScope, DiscoveredFile)>,
    m: Map<Seq<char>, (PromptScope, int)>,
    p: Seq<DiscoveredFile>,
    u: Seq<DiscoveredFile>,
    names: Seq<Seq<char>>,
)
    requires
        lists_selection(r, m, p, u),
        names.len() == r.len(),
        forall|k: int| 0 <= k < r.len() ==> #[trigger] names[k] == r[k].1.name@,
    ensures
        lists_names(names, m),
{
    assert(names =~= entry_names(r));
    assert forall|k: int| 0 <= k < names.len() implies m.contains_key(#[trigger] names[k]) by {
        assert(names[k] == r[k].1.name@);
    }
    assert forall|n: Seq<char>| #[trigger] m.contains_key(n) implies exists|k: int| 0 <= k < names.len() && names[k] == n by {
        let k = choose|k: int| 0 <= k < r.len() && r[k].1.name@ == n;
        assert(names[k] == n);
    }
}

/// Project and user prompt files merged: one per name, the project file
/// winning on a collision, sorted by name.
pub fn aggregate_prompt_files(project: Vec<DiscoveredFile>, user: Vec<DiscoveredFile>) -> (r: Vec<DiscoveredFile>)
    ensures
        lists_files(r@, merged_selection(file_names(project@), file_names(user@)), project@, user@),
{
    let ghost m = merged_selection(file_names(project@), file_names(user@));
    let ghost p = project@;
    let ghost u = user@;
    let selected = select_prompt_files(project, user);
    let ghost sel = selected@;
    let mut out: Vec<DiscoveredFile> = Vec::new();
    for entry in it: selected
        invariant
            sel == it.seq(),
            lists_selection(sel, m, p, u),
            out@.len() == it.index(),
            forall|k: int| 0 <= k < it.index() ==> #[trigger] out@[k] == sel[k].1,
    {
        let (_scope, file) = entry;
        out.push(file);
    }
    proof {
        lemma_names_of_selection(sel, m, p, u, file_names(out@));
        assert forall|k: int| #![trigger out@[k]] 0 <= k < out@.len() implies chosen_file(p, u, m[out@[k].name@]) == out@[k] by {
            assert(out@[k] == sel[k].1);
        }
    }
    out
}

/// Project and user prompts merged into the prompt list that clients see:
/// one per name, the project prompt winning on a collision, sorted by name,
/// each with the body of its file (the frontmatter stripped) as content.
pub fn aggregate_custom_prompts(project: Vec<DiscoveredFile>, user: Vec<DiscoveredFile>) -> (r: Vec<CustomPrompt>)
    ensures
        lists_prompts(r@, merged_selection(file_names(project@), file_names(user@)), project@, user@),
{
    let ghost m = merged_selection(file_names(project@), file_names(user@));
    let ghost p = project@;
    let ghost u = user@;
    let selected = select_prompt_files(project, user);
    let ghost sel = selected@;
    let mut out: Vec<CustomPrompt> = Vec::new();
    for entry in it: selected
        invariant
            sel == it.seq(),
            lists_selection(sel, m, p, u),
            out@.len() == it.index(),
            forall|k: int|
                #![trigger out@[k]]
                0 <= k < it.index() ==> {
                    &&& out@[k].name == sel[k].1.name
                    &&& out@[k].path == sel[k].1.path
                    &&& out@[k].content@ == parsed_frontmatter(sel[k].1.content@).1
                },
    {
        let (_scope, file) = entry;
        let (_meta, body) = parse_frontmatter_and_body(file.content.as_str());
        out.push(CustomPrompt { name: file.name, path: file.path, content: body });
    }
    proof {
        let names = out@.map_values(|c: CustomPrompt| c.name@);
        assert forall|k: int| 0 <= k < out@.len() implies #[trigger] names[k] == sel[k].1.name@ by {
            assert(out@[k].name == sel[k].1.name);
        }
        lemma_names_of_selection(sel, m, p, u, names);
    }
    out
}

/// Project and user prompts merged into the metadata list that clients see:
/// one per name, the project prompt winning on a collision, sorted by name,
/// each with its scope, namespace and frontmatter metadata.
pub fn aggregate_custom_prompt_meta(project: Vec<DiscoveredFile>, user: Vec<DiscoveredFile>) -> (r: Vec<CustomPromptMeta>)
    ensures
        lists_meta(r@, merged_selection(file_names(project@), file_names(user@)), project@, user@),
{
    let ghost m = merged_selection(file_names(project@), file_names(user@));
    let ghost p = project@;
    let ghost u = user@;
    let selected = select_prompt_files(project, user);
    let ghost sel = selected@;
    let mut out: Vec<CustomPromptMeta> = Vec::new();
    for entry in it: selected
        invariant
            sel == it.seq(),
            lists_selection(sel, m, p, u),
            out@.len() == it.index(),
            forall|k: int| #![trigger out@[k]] 0 <= k < it.index() ==> meta_matches(out@[k], sel[k].1, sel[k].0),
    {
        let (scope, file) = entry;
        out.push(prompt_meta(file, scope));
    }
    proof {
        let names = out@.map_values(|c: CustomPromptMeta| c.name@);
        assert forall|k: int| 0 <= k < out@.len() implies #[trigger] names[k] == sel[k].1.name@ by {
            assert(meta_matches(out@[k], sel[k].1, sel[k].0));
        }
        lemma_names_of_selection(sel, m, p, u, names);
        assert forall|k: int| #![trigger out@[k]] 0 <= k < out@.len() implies meta_matches(out@[k], chosen_file(p, u, m[out@[k].name@]), m[out@[k].name@].0) by {
            assert(meta_matches(out@[k], sel[k].1, sel[k].0));
            assert(out@[k].name@ == sel[k].1.name@);
        }
    }
    out
}

proof fn lemma_project_selection_last(p: Seq<Seq<char>>, i: int)
    requires
        0 <= i < p.len(),
        forall|j: int| i < j < p.len() ==> p[j] != p[i],
    ensures
        project_selection(p).contains_key(p[i]),
        project_selection(p)[p[i]] == (PromptScope::Project, i),
    decreases p.len(),
{
    if i < p.len() - 1 {
        lemma_project_selection_last(p.drop_last(), i);
    }
}

proof fn lemma_merged_keeps(p: Seq<Seq<char>>, u: Seq<Seq<char>>, n: Seq<char>)
    requires
        project_selection(p).contains_key(n),
    ensures
        merged_selection(p, u).contains_key(n),
        merged_selection(p, u)[n] == project_selection(p)[n],
    decreases u.len(),
{
    if u.len() > 0 {
        lemma_merged_keeps(p, u.drop_last(), n);
    }
}

proof fn lemma_project_selection_domain(p: Seq<Seq<char>>, n: Seq<char>)
    ensures
        project_selection(p).contains_key(n) <==> p.contains(n),
        project_selection(p).contains_key(n) ==> project_selection(p)[n].0 == PromptScope::Project,
    decreases p.len(),
{
    if p.len() > 0 {
        lemma_project_selection_domain(p.drop_last(), n);
        if p.drop_last().contains(n) {
            let k = choose|k: int| 0 <= k < p.drop_last().len() && p.drop_last()[k] == n;
            assert(p[k] == n);
        }
        if p.contains(n) && n != p.last() {
            let k = choose|k: int| 0 <= k < p.len() && p[k] == n;
            assert(p.drop_last()[k] == n);
        }
    }
}

proof fn lemma_merged_domain(p: Seq<Seq<char>>, u: Seq<Seq<char>>, n: Seq<char>)
    ensures
        merged_selection(p, u).contains_key(n) <==> (p.contains(n) || u.contains(n)),
    decreases u.len(),
{
    if u.len() == 0 {
        lemma_project_selection_domain(p, n);
    } else {
        lemma_merged_domain(p, u.drop_last(), n);
        if u.drop_last().contains(n) {
            let k = choose|k: int| 0 <= k < u.drop_last().len() && u.drop_last()[k] == n;
            assert(u[k] == n);
        }
        if u.contains(n) && n != u.last() {
            let k = choose|k: int| 0 <= k < u.len() && u[k] == n;
            assert(u.drop_last()[k] == n);
        }
    }
}

/// A project prompt takes precedence over user prompts of the same name: the
/// name selects the last project prompt that bears it.
pub proof fn law_project_prompt_wins(p: Seq<Seq<char>>, u: Seq<Seq<char>>, i: int)
    requires
        0 <= i < p.len(),
        forall|j: int| i < j < p.len() ==> p[j] != p[i],
    ensures
        merged_selection(p, u).contains_key(p[i]),
        merged_selection(p, u)[p[i]] == (PromptScope::Project, i),
{
    lemma_project_selection_last(p, i);
    lemma_merged_keeps(p, u, p[i]);
}

/// A user prompt is listed under a name that no project prompt bears: the
/// name selects the first user prompt that bears it.
pub proof fn law_user_prompt_fills_in(p: Seq<Seq<char>>, u: Seq<Seq<char>>, j: int)
    requires
        0 <= j < u.len(),
        !p.contains(u[j]),
        forall|k: int| 0 <= k < j ==> u[k] != u[j],
    ensures
        merged_selection(p, u).contains_key(u[j]),
        merged_selection(p, u)[u[j]] == (PromptScope::User, j),
    decreases u.len(),
{
    if j < u.len() - 1 {
        law_user_prompt_fills_in(p, u.drop_last(), j);
    } else {
        lemma_merged_domain(p, u.drop_last(), u[j]);
        if u.drop_last().contains(u[j]) {
            let k = choose|k: int| 0 <= k < u.drop_last().len() && u.drop_last()[k] == u[j];
            assert(u[k] == u[j]);
        }
    }
}

/// Every name that a project or user prompt bears is listed, and no other.
pub proof fn law_every_name_listed(p: Seq<Seq<char>>, u: Seq<Seq<char>>, n: Seq<char>)
    ensures
        merged_selection(p, u).contains_key(n) <==> (p.contains(n) || u.contains(n)),
{
    lemma_merged_domain(p, u, n);
}

/// Two name-sorted listings of the same names are the same listing.
proof fn lemma_sorted_listings_equal(a: Seq<Seq<char>>, b: Seq<Seq<char>>)
    requires
        strictly_sorted(a),
        strictly_sorted(b),
        forall|x: Seq<char>| a.contains(x) <==> b.contains(x),
    ensures
        a == b,
    decreases a.len() + b.len(),
{
    if a.len() == 0 || b.len() == 0 {
        if a.len() > 0 {
            assert(a.contains(a[0]));
        } else if b.len() > 0 {
            assert(b.contains(b[0]));
        }
        assert(a =~= b);
    } else {
        assert(a.contains(a[0]));
        assert(b.contains(b[0]));
        let k = choose|k: int| 0 <= k < b.len() && b[k] == a[0];
        let j = choose|j: int| 0 <= j < a.len() && a[j] == b[0];
        lemma_lex_irreflexive(a[0]);
        lemma_lex_irreflexive(b[0]);
        if k > 0 {
            assert(lex_lt(b[0], b[k]));
            if j > 0 {
                assert(lex_lt(a[0], a[j]));
                crate::text::lemma_lex_asymmetric(a[0], a[j]);
            }
        }
        assert(a[0] == b[0]);
        let a1 = a.drop_first();
        let b1 = b.drop_first();
        assert forall|x: Seq<char>| a1.contains(x) <==> b1.contains(x) by {
            if a1.contains(x) {
                let i = choose|i: int| 0 <= i < a1.len() && a1[i] == x;
                assert(a[i + 1] == x);
                assert(lex_lt(a[0], a[i + 1]));
                assert(b.contains(x));
                let m = choose|m: int| 0 <= m < b.len() && b[m] == x;
                if m == 0 {
                    lemma_lex_irreflexive(x);
                }
                assert(b1[m - 1] == x);
            }
            if b1.contains(x) {
                let i = choose|i: int| 0 <= i < b1.len() && b1[i] == x;
                assert(b[i + 1] == x);
                assert(lex_lt(b[0], b[i + 1]));
                assert(a.contains(x));
                let m = choose|m: int| 0 <= m < a.len() && a[m] == x;
                if m == 0 {
                    lemma_lex_irreflexive(x);
                }
                assert(a1[m - 1] == x);
            }
        }
        assert forall|i: int, jj: int| 0 <= i < jj < a1.len() implies lex_lt(#[trigger] a1[i], #[trigger] a1[jj]) by {
            assert(a1[i] == a[i + 1] && a1[jj] == a[jj + 1]);
        }
        assert forall|i: int, jj: int| 0 <= i < jj < b1.len() implies lex_lt(#[trigger] b1[i], #[trigger] b1[jj]) by {
            assert(b1[i] == b[i + 1] && b1[jj] == b[jj + 1]);
        }
        lemma_sorted_listings_equal(a1, b1);
        assert(a =~= seq![a[0]] + a1);
        assert(b =~= seq![b[0]] + b1);
    }
}

proof fn lemma_listed_names_equal(a: Seq<Seq<char>>, b: Seq<Seq<char>>, m: Map<Seq<char>, (PromptScope, int)>)
    requires
        lists_names(a, m),
        lists_names(b, m),
    ensures
        a == b,
{
    assert forall|x: Seq<char>| a.contains(x) <==> b.contains(x) by {
        if a.contains(x) {
            let i = choose|i: int| 0 <= i < a.len() && a[i] == x;
            assert(m.contains_key(a[i]));
        }
        if b.contains(x) {
            let i = choose|i: int| 0 <= i < b.len() && b[i] == x;
            assert(m.contains_key(b[i]));
        }
    }
    lemma_sorted_listings_equal(a, b);
}

/// The prompt list and the file list of the same project and user prompts
/// agree entry by entry: same length, same names, same paths, in the same
/// order.
pub proof fn law_prompt_list_matches_file_list(
    prompts: Seq<CustomPrompt>,
    files: Seq<DiscoveredFile>,
    p: Seq<DiscoveredFile>,
    u: Seq<DiscoveredFile>,
)
    requires
        lists_prompts(prompts, merged_selection(file_names(p), file_names(u)), p, u),
        lists_files(files, merged_selection(file_names(p), file_names(u)), p, u),
    ensures
        prompts.len() == files.len(),
        forall|k: int| 0 <= k < prompts.len() ==> #[trigger] prompts[k].name == files[k].name && prompts[k].path == files[k].path,
{
    let m = merged_selection(file_names(p), file_names(u));
    let pn = prompts.map_values(|c: CustomPrompt| c.name@);
    let fnames = file_names(files);
    lemma_listed_names_equal(pn, fnames, m);
    assert forall|k: int| 0 <= k < prompts.len() implies #[trigger] prompts[k].name == files[k].name && prompts[k].path == files[k].path by {
        assert(pn[k] == fnames[k]);
        assert(prompts[k].name@ == files[k].name@);
        assert(chosen_file(p, u, m[files[k].name@]) == files[k]);
    }
}

} // verus!
