use codex_prompts::paths::{
    default_prompts_dir, fallback_user_prompts_candidate, markdown_prompt_name, project_prompts_dir,
    project_root_from_cwd, PromptPath,
};

fn path(s: &str) -> PromptPath {
    let p = std::path::Path::new(s);
    PromptPath {
        absolute: p.is_absolute(),
        components: p
            .components()
            .filter(|c| !matches!(c, std::path::Component::RootDir))
            .map(|c| c.as_os_str().to_string_lossy().to_string())
            .collect(),
    }
}

fn comps(p: &PromptPath) -> Vec<&str> {
    p.components.iter().map(|s| s.as_str()).collect()
}

#[test]
fn project_root_detects_nesting_under_prompts() {
    let project = path("/tmp/x/project");
    let nested = path("/tmp/x/project/.codex/prompts/ns");
    let root = project_root_from_cwd(&nested, None);
    assert!(root.absolute);
    assert_eq!(root.components, project.components);
}

#[test]
fn project_root_prefers_git_root() {
    let nested = path("/w/.codex/prompts");
    let root = project_root_from_cwd(&nested, Some(path("/repo")));
    assert_eq!(comps(&root), vec!["repo"]);
}

#[test]
fn project_root_falls_back_to_cwd() {
    let cwd = path("/a/b");
    let root = project_root_from_cwd(&cwd, None);
    assert_eq!(comps(&root), vec!["a", "b"]);
}

#[test]
fn project_prompts_dir_appends_codex_prompts() {
    let dir = project_prompts_dir(&path("/proj"));
    assert_eq!(comps(&dir), vec!["proj", ".codex", "prompts"]);
    assert!(dir.absolute);
}

#[test]
fn default_prompts_dir_under_codex_home() {
    let dir = default_prompts_dir(Some(path("/home/u/.codex"))).unwrap();
    assert_eq!(comps(&dir), vec!["home", "u", ".codex", "prompts"]);
    assert!(default_prompts_dir(None).is_none());
}

#[test]
fn fallback_candidate_climbs_three_levels() {
    let c = fallback_user_prompts_candidate(&path("/tmp/t/project/.codex/prompts")).unwrap();
    assert_eq!(comps(&c), vec!["tmp", "t", "user", "prompts"]);
    assert!(fallback_user_prompts_candidate(&path("/a/b")).is_none());
}

#[test]
fn markdown_names_follow_path_rules() {
    assert_eq!(markdown_prompt_name(&path("/d/foo.md")).as_deref(), Some("foo"));
    assert_eq!(markdown_prompt_name(&path("/d/Foo.MD")).as_deref(), Some("Foo"));
    assert_eq!(markdown_prompt_name(&path("/d/a.b.md")).as_deref(), Some("a.b"));
    assert_eq!(markdown_prompt_name(&path("/d/.md")), None);
    assert_eq!(markdown_prompt_name(&path("/d/notes.txt")), None);
    assert_eq!(markdown_prompt_name(&path("/d/README")), None);
    assert_eq!(markdown_prompt_name(&path("/")), None);
}
