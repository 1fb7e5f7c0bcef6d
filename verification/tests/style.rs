use codex_prompts::style::{
    apply_style_doc, select_style_sections, Mode, RegionSpec, Regions, Selector, Selectors, StyleDoc,
};

const BASE: &str = "# Intro\n\nHello.\n\n## Personality\n\nBe nice.\n\n## Planning\n\nPlan things.\n\n### Preamble messages\n\nSay hi.\n\n## Sharing progress updates\n\nUpdate often.\n";

fn doc(regions: Regions) -> StyleDoc {
    StyleDoc { kind: "codex-style".to_string(), version: 1, regions, selectors: None }
}

fn spec(mode: Mode, text: &str) -> Option<RegionSpec> {
    Some(RegionSpec { mode, text: text.to_string() })
}

#[test]
fn wrong_kind_or_version_is_not_a_style() {
    let mut d = doc(Regions::default());
    d.kind = "other".to_string();
    assert_eq!(apply_style_doc(BASE, &d), None);
    let mut d = doc(Regions::default());
    d.version = 2;
    assert_eq!(apply_style_doc(BASE, &d), None);
}

#[test]
fn empty_style_keeps_base() {
    assert_eq!(apply_style_doc(BASE, &doc(Regions::default())).unwrap(), BASE);
}

#[test]
fn replace_section_keeps_one_blank_line() {
    let mut regions = Regions::default();
    regions.personality = spec(Mode::Replace, "Be terse.\n\n");
    let out = apply_style_doc(BASE, &doc(regions)).unwrap();
    assert_eq!(
        out,
        "# Intro\n\nHello.\n\n## Personality\n\nBe terse.\n\n## Planning\n\nPlan things.\n\n### Preamble messages\n\nSay hi.\n\n## Sharing progress updates\n\nUpdate often.\n"
    );
}

#[test]
fn merge_appends_to_section() {
    let mut regions = Regions::default();
    regions.planning = spec(Mode::Merge, "Also show steps.");
    let out = apply_style_doc(BASE, &doc(regions)).unwrap();
    assert_eq!(
        out,
        "# Intro\n\nHello.\n\n## Personality\n\nBe nice.\n\n## Planning\n\nPlan things.\n\n### Preamble messages\n\nSay hi.\n\nAlso show steps.\n\n## Sharing progress updates\n\nUpdate often.\n"
    );
}

#[test]
fn merge_keeps_one_blank_line_before_next_section() {
    let base = "## Personality\nold\n\n## Next\nrest\n";
    let mut regions = Regions::default();
    regions.personality = spec(Mode::Merge, "added");
    assert_eq!(
        apply_style_doc(base, &doc(regions)).unwrap(),
        "## Personality\nold\n\nadded\n\n## Next\nrest\n"
    );
}

#[test]
fn merge_into_last_section_ends_with_one_newline() {
    let mut regions = Regions::default();
    regions.personality = spec(Mode::Merge, "added");
    assert_eq!(
        apply_style_doc("## Personality\nold", &doc(regions)).unwrap(),
        "## Personality\nold\n\nadded\n"
    );
    let mut regions = Regions::default();
    regions.personality = spec(Mode::Merge, "added");
    assert_eq!(
        apply_style_doc("## Personality\nold\n\n", &doc(regions)).unwrap(),
        "## Personality\nold\n\nadded\n"
    );
}

#[test]
fn merge_blank_text_changes_nothing() {
    let mut regions = Regions::default();
    regions.personality = spec(Mode::Merge, " \n ");
    assert_eq!(apply_style_doc(BASE, &doc(regions)).unwrap(), BASE);
}

#[test]
fn disable_removes_section() {
    let mut regions = Regions::default();
    regions.personality = spec(Mode::Disable, "");
    let out = apply_style_doc(BASE, &doc(regions)).unwrap();
    assert_eq!(
        out,
        "# Intro\n\nHello.\n\n## Planning\n\nPlan things.\n\n### Preamble messages\n\nSay hi.\n\n## Sharing progress updates\n\nUpdate often.\n"
    );
}

#[test]
fn preambles_end_at_next_h3_or_h2() {
    let mut regions = Regions::default();
    regions.preambles = spec(Mode::Replace, "Say nothing.");
    let out = apply_style_doc(BASE, &doc(regions)).unwrap();
    assert_eq!(
        out,
        "# Intro\n\nHello.\n\n## Personality\n\nBe nice.\n\n## Planning\n\nPlan things.\n\n### Preamble messages\n\nSay nothing.\n\n## Sharing progress updates\n\nUpdate often.\n"
    );
}

#[test]
fn missing_heading_appends_section() {
    let mut regions = Regions::default();
    regions.presentation = spec(Mode::Replace, "Use bullets.");
    let out = apply_style_doc(BASE, &doc(regions)).unwrap();
    assert_eq!(
        out,
        format!("{BASE}\n\n## Presenting your work and final message\n\nUse bullets.\n")
    );
}

#[test]
fn missing_heading_with_blank_text_changes_nothing() {
    let mut regions = Regions::default();
    regions.presentation = spec(Mode::Merge, "  \n\t");
    assert_eq!(apply_style_doc(BASE, &doc(regions)).unwrap(), BASE);
}

#[test]
fn selector_heading_overrides_default() {
    let base = "## Tone\n\nWarm.\n\n## Other\n\nx\n";
    let mut regions = Regions::default();
    regions.personality = spec(Mode::Replace, "Cold.");
    let mut selectors = Selectors::default();
    selectors.personality = Some(Selector { heading: Some("## Tone".to_string()) });
    let d = StyleDoc { kind: "codex-style".to_string(), version: 1, regions, selectors: Some(selectors) };
    assert_eq!(apply_style_doc(base, &d).unwrap(), "## Tone\n\nCold.\n\n## Other\n\nx\n");
}

#[test]
fn sections_are_selected_in_fixed_order() {
    let out = select_style_sections(BASE, " Planning , personality,,");
    assert_eq!(
        out,
        "## Personality\n\nBe nice.\n\n\n## Planning\n\nPlan things.\n\n### Preamble messages\n\nSay hi.\n\n"
    );
}

#[test]
fn no_sections_selected_gives_empty_text() {
    assert_eq!(select_style_sections(BASE, ""), "");
    assert_eq!(select_style_sections(BASE, "nothing"), "");
}

#[test]
fn mode_default_is_replace() {
    assert_eq!(Mode::default(), Mode::Replace);
}

#[test]
fn whitespace_set_matches_std() {
    for code in 0u32..=0x3100 {
        if let Some(c) = char::from_u32(code) {
            assert_eq!(codex_prompts::text::is_whitespace_char(c), c.is_whitespace(), "{code:#x}");
        }
    }
}
