use codex_prompts::aggregate::{aggregate_custom_prompt_meta, aggregate_custom_prompts, aggregate_prompt_files};
use codex_prompts::cli::{prepend_config_flags, CliConfigOverrides};
use codex_prompts::discovery::{
    classify_entry, discovered_file, is_allowed_model, is_excluded, model_fell_back,
    sort_prompts_by_name, validate_or_default_model, DiscoveredFile, EntryAction,
};
use codex_prompts::paths::PromptPath;
use codex_prompts::protocol::{CustomPrompt, PromptScope};

fn path(s: &str) -> PromptPath {
    PromptPath {
        absolute: s.starts_with('/'),
        components: s.split('/').filter(|c| !c.is_empty()).map(|c| c.to_string()).collect(),
    }
}

fn file(root: &str, rel: &str, content: &str) -> DiscoveredFile {
    let full = format!("{root}/{rel}");
    let p = path(&full);
    let name = match classify_entry(&p, false, true) {
        EntryAction::Prompt(n) => n,
        _ => panic!("not a prompt: {full}"),
    };
    discovered_file(&path(root), p, name, content.to_string())
}

fn names(v: &[DiscoveredFile]) -> Vec<String> {
    v.iter().map(|f| f.name.clone()).collect()
}

#[test]
fn merge_user_only() {
    let user = vec![file("/u", "u2.md", "U2"), file("/u", "u1.md", "U1")];
    let found = aggregate_prompt_files(Vec::new(), user);
    assert_eq!(names(&found), vec!["u1", "u2"]);
}

#[test]
fn merge_project_only() {
    let found = aggregate_prompt_files(vec![file("/p", "p1.md", "P1")], Vec::new());
    assert_eq!(names(&found), vec!["p1"]);
}

#[test]
fn merge_collision_project_wins() {
    let user = vec![file("/u", "foo.md", "U-FOO"), file("/u", "bar.md", "U-BAR")];
    let project = vec![file("/p", "foo.md", "P-FOO"), file("/p", "baz.md", "P-BAZ")];
    let found = aggregate_prompt_files(project, user);
    assert_eq!(names(&found), vec!["bar", "baz", "foo"]);
    let foo = found.into_iter().find(|e| e.name == "foo").unwrap();
    assert_eq!(foo.content, "P-FOO");
}

#[test]
fn merge_duplicates_within_scope() {
    // Among project prompts the last one wins; among user prompts the first.
    let project = vec![file("/p", "a.md", "P1"), file("/p", "x/a.md", "P2")];
    let user = vec![file("/u", "b.md", "U1"), file("/u", "y/b.md", "U2")];
    let found = aggregate_prompt_files(project, user);
    assert_eq!(names(&found), vec!["a", "b"]);
    assert_eq!(found[0].content, "P2");
    assert_eq!(found[1].content, "U1");
}

#[test]
fn custom_prompts_keep_content() {
    let prompts = aggregate_custom_prompts(vec![file("/p", "local.md", "LOCAL")], vec![file("/u", "user.md", "USER")]);
    let got: Vec<(String, String)> = prompts.into_iter().map(|p| (p.name, p.content)).collect();
    assert_eq!(got, vec![("local".to_string(), "LOCAL".to_string()), ("user".to_string(), "USER".to_string())]);
}

#[test]
fn custom_prompt_content_is_body_after_frontmatter() {
    let prompts = aggregate_custom_prompts(vec![file("/p", "a.md", "---\ndescription: D\n---\nBODY\n")], Vec::new());
    assert_eq!(prompts[0].content, "BODY\n");
}

#[test]
fn prompt_list_matches_file_list() {
    let mk = || {
        (
            vec![file("/p", "foo.md", "P"), file("/p", "z.md", "Z")],
            vec![file("/u", "foo.md", "U"), file("/u", "a.md", "A")],
        )
    };
    let (p1, u1) = mk();
    let (p2, u2) = mk();
    let files = aggregate_prompt_files(p1, u1);
    let prompts = aggregate_custom_prompts(p2, u2);
    assert_eq!(files.len(), prompts.len());
    for (f, c) in files.iter().zip(prompts.iter()) {
        assert_eq!(f.name, c.name);
        assert_eq!(f.path.components, c.path.components);
    }
}

#[test]
fn meta_populated_from_frontmatter() {
    let user = vec![file("/u", "a.md", "---\ndescription: Hello\nargument_hint: <x>\nmodel: gpt-5-medium\n---\nBODY\n")];
    let project = vec![file("/p", "b.md", "Just content\n")];
    let meta = aggregate_custom_prompt_meta(project, user);
    let names_meta: Vec<String> = meta.iter().map(|m| m.name.clone()).collect();
    assert_eq!(names_meta, vec!["a", "b"]);
    let a = meta.iter().find(|m| m.name == "a").unwrap();
    assert_eq!(a.description.as_deref(), Some("Hello"));
    assert_eq!(a.argument_hint.as_deref(), Some("<x>"));
    assert_eq!(a.model.as_deref(), Some("gpt-5-medium"));
    assert_eq!(a.scope, PromptScope::User);
    let b = meta.iter().find(|m| m.name == "b").unwrap();
    assert_eq!(b.scope, PromptScope::Project);
    assert_eq!(b.description, None);
    assert_eq!(b.model.as_deref(), Some("gpt-5-medium"));
}

#[test]
fn meta_namespace_from_subdirectories() {
    let meta = aggregate_custom_prompt_meta(vec![file("/p", "frontend/ui/component.md", "x")], Vec::new());
    assert_eq!(meta[0].namespace, vec!["frontend".to_string(), "ui".to_string()]);
    let meta = aggregate_custom_prompt_meta(vec![file("/p", "top.md", "x")], Vec::new());
    assert!(meta[0].namespace.is_empty());
}

#[test]
fn invalid_model_falls_back_to_default() {
    let meta = aggregate_custom_prompt_meta(vec![file("/p", "m.md", "---\nmodel: gpt-4o\n---\nx")], Vec::new());
    assert_eq!(meta[0].model.as_deref(), Some("gpt-5-medium"));
    let meta = aggregate_custom_prompt_meta(vec![file("/p", "m.md", "---\nmodel: gpt-5-high\n---\nx")], Vec::new());
    assert_eq!(meta[0].model.as_deref(), Some("gpt-5-high"));
}

#[test]
fn model_validation() {
    assert!(is_allowed_model("gpt-5-low"));
    assert!(!is_allowed_model("gpt-4o"));
    assert_eq!(validate_or_default_model(None).as_deref(), Some("gpt-5-medium"));
    let bad = "nope".to_string();
    assert_eq!(validate_or_default_model(Some(&bad)).as_deref(), Some("gpt-5-medium"));
    let good = "gpt-5-minimal".to_string();
    assert_eq!(validate_or_default_model(Some(&good)).as_deref(), Some("gpt-5-minimal"));
}

#[test]
fn entries_are_classified() {
    assert!(matches!(classify_entry(&path("/r/sub"), true, false), EntryAction::Descend));
    assert!(matches!(classify_entry(&path("/r/link.md"), false, false), EntryAction::Skip));
    assert!(matches!(classify_entry(&path("/r/not-md.txt"), false, true), EntryAction::Skip));
    match classify_entry(&path("/r/c.md"), false, true) {
        EntryAction::Prompt(n) => assert_eq!(n, "c"),
        _ => panic!("expected a prompt"),
    }
}

#[test]
fn rel_dir_is_relative_to_root() {
    let f = file("/root", "a/b/c.md", "C");
    assert!(!f.rel_dir.absolute);
    assert_eq!(f.rel_dir.components, vec!["a".to_string(), "b".to_string()]);
}

#[test]
fn prompts_sorted_by_name_stably() {
    let mk = |n: &str, c: &str| CustomPrompt { name: n.to_string(), path: path("/d/x.md"), content: c.to_string() };
    let sorted = sort_prompts_by_name(vec![mk("b", "1"), mk("a", "2"), mk("b", "3"), mk("A", "4")]);
    let got: Vec<(String, String)> = sorted.into_iter().map(|p| (p.name, p.content)).collect();
    assert_eq!(
        got,
        vec![
            ("A".to_string(), "4".to_string()),
            ("a".to_string(), "2".to_string()),
            ("b".to_string(), "1".to_string()),
            ("b".to_string(), "3".to_string())
        ]
    );
}

#[test]
fn excluded_names() {
    let exclude = vec!["init".to_string()];
    assert!(is_excluded(&"init".to_string(), &exclude));
    assert!(!is_excluded(&"foo".to_string(), &exclude));
}

#[test]
fn root_overrides_come_first() {
    let mut sub = CliConfigOverrides { raw_overrides: vec!["b=2".to_string()] };
    prepend_config_flags(&mut sub, CliConfigOverrides { raw_overrides: vec!["a=1".to_string()] });
    assert_eq!(sub.raw_overrides, vec!["a=1".to_string(), "b=2".to_string()]);
}

#[test]
fn only_a_given_unknown_model_falls_back() {
    assert!(model_fell_back(Some(&"gpt-4o".to_string())));
    assert!(!model_fell_back(Some(&"gpt-5-low".to_string())));
    assert!(!model_fell_back(None));
}
