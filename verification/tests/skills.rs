use llm_wiki_server::paths::PathStyle;
use llm_wiki_server::skills::{
    is_portable_skill_name, load_project_skills, normalize_skill_name, parse_skill, skill_places,
    split_frontmatter, yaml_string_field, AgentSkill, SkillFile, MAX_SKILL_BYTES,
};

fn file(path: &str, contents: &str) -> SkillFile {
    SkillFile {
        path: path.to_string(),
        is_file: true,
        size: contents.len() as u64,
        contents: Some(contents.to_string()),
    }
}

fn load(requested: &[&str], files: Vec<SkillFile>) -> Vec<AgentSkill> {
    let requested = requested.iter().map(|name| name.to_string()).collect();
    load_project_skills(PathStyle::Unix, "/project", &requested, &files)
}

#[test]
fn load_project_skills_reads_frontmatter_skill() {
    let skills = load(
        &["proofreader"],
        vec![file(
            "/project/.llm-wiki/skills/proofreader.md",
            "---\nname: proofreader\ndescription: Review source quality\n---\nCheck claims carefully.",
        )],
    );
    assert_eq!(skills.len(), 1);
    assert_eq!(skills[0].name, "proofreader");
    assert_eq!(skills[0].description, "Review source quality");
    assert_eq!(skills[0].instructions, "Check claims carefully.");
}

#[test]
fn load_project_skills_reads_crlf_frontmatter() {
    let skills = load(
        &["proofreader"],
        vec![file(
            "/project/.llm-wiki/skills/proofreader.md",
            "---\r\nname: proofreader\r\ndescription: Review source quality\r\n---\r\nCheck claims carefully.",
        )],
    );
    assert_eq!(skills.len(), 1);
    assert_eq!(skills[0].name, "proofreader");
    assert_eq!(skills[0].description, "Review source quality");
    assert_eq!(skills[0].instructions, "Check claims carefully.");
}

#[test]
fn load_project_skills_rejects_path_traversal_names() {
    let skills = load_project_skills(PathStyle::Unix, "/tmp/missing", &vec!["../secret".to_string()], &vec![]);
    assert!(skills.is_empty());
    let there = load(
        &["../secret"],
        vec![file("/project/.llm-wiki/skills/../secret.md", "Secret.")],
    );
    assert!(there.is_empty());
}

#[test]
fn load_project_skills_rejects_windows_reserved_names() {
    let requested = vec!["con".to_string(), "a:b".to_string()];
    let skills = load_project_skills(PathStyle::Unix, "/tmp/missing", &requested, &vec![]);
    assert!(skills.is_empty());
    let there = load(
        &["con", "a:b"],
        vec![
            file("/project/.llm-wiki/skills/con.md", "One."),
            file("/project/.llm-wiki/skills/a:b.md", "Two."),
        ],
    );
    assert!(there.is_empty());
}

#[test]
fn skills_are_looked_for_in_two_places() {
    assert_eq!(
        skill_places(PathStyle::Unix, "/project", &vec![" proofreader ".to_string(), "a/b".to_string()]),
        vec![
            "/project/.llm-wiki/skills/proofreader.md".to_string(),
            "/project/.llm-wiki/skills/proofreader/SKILL.md".to_string(),
        ]
    );
    let second = load(
        &["proofreader"],
        vec![file("/project/.llm-wiki/skills/proofreader/SKILL.md", "Second.")],
    );
    assert_eq!(second[0].instructions, "Second.");
    assert_eq!(second[0].name, "proofreader");
    assert_eq!(second[0].description, "");
    let both = load(
        &["proofreader"],
        vec![
            file("/project/.llm-wiki/skills/proofreader/SKILL.md", "Second."),
            file("/project/.llm-wiki/skills/proofreader.md", "First."),
        ],
    );
    assert_eq!(both[0].instructions, "First.");
}

#[test]
fn files_that_are_none_too_large_or_empty_are_passed_over() {
    let mut large = file("/project/.llm-wiki/skills/a.md", "Large.");
    large.size = MAX_SKILL_BYTES + 1;
    let mut fitting = file("/project/.llm-wiki/skills/b.md", "Fits.");
    fitting.size = MAX_SKILL_BYTES;
    let mut directory = file("/project/.llm-wiki/skills/c.md", "Directory.");
    directory.is_file = false;
    let mut unreadable = file("/project/.llm-wiki/skills/d.md", "");
    unreadable.contents = None;
    let empty = file("/project/.llm-wiki/skills/e.md", "---\nname: e\n---\n \n");
    let skills = load(
        &["a", "b", "c", "d", "e"],
        vec![large, fitting, directory, unreadable, empty],
    );
    assert_eq!(skills.len(), 1);
    assert_eq!(skills[0].instructions, "Fits.");
}

#[test]
fn names_are_normalized_or_refused() {
    assert_eq!(normalize_skill_name("  a b "), Some("a b".to_string()));
    for refused in [
        "", "  ", "a/b", "a\\b", "..", "a..b", "a?b", "a*", "<a", "a\u{1f}b", "NUL", "nul.txt",
        "lpt9 .md", "Com1",
    ] {
        assert_eq!(normalize_skill_name(refused), None, "{refused}");
    }
    for accepted in ["com0", "com10", "console", ".con", "a.con"] {
        assert_eq!(normalize_skill_name(accepted), Some(accepted.to_string()));
    }
    assert!(is_portable_skill_name(&['a']));
    assert!(!is_portable_skill_name(&['a', '|']));
}

#[test]
fn front_matter_is_parted_from_the_rest() {
    assert_eq!(
        split_frontmatter("\u{feff}---\na: b\n---\nRest\r\nend\r"),
        (Some("a: b".to_string()), "Rest\nend\n".to_string())
    );
    assert_eq!(
        split_frontmatter("---\na: b\nno end"),
        (None, "---\na: b\nno end".to_string())
    );
    assert_eq!(split_frontmatter("plain"), (None, "plain".to_string()));
    assert_eq!(
        split_frontmatter("---\n\n---more"),
        (Some("".to_string()), "more".to_string())
    );
}

#[test]
fn fields_are_read_without_quotes() {
    let text = "  name :x\nname:\nname: \"Quoted\"\nname: later\ndescription: 'single'";
    assert_eq!(yaml_string_field(text, "name"), Some("Quoted".to_string()));
    assert_eq!(
        yaml_string_field(text, "description"),
        Some("single".to_string())
    );
    assert_eq!(yaml_string_field(text, "missing"), None);
    assert_eq!(
        yaml_string_field("name: \"half", "name"),
        Some("\"half".to_string())
    );
    assert_eq!(yaml_string_field("name: \"\"", "name"), None);
    assert_eq!(parse_skill("  ", "name"), None);
}
