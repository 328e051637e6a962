use oh_my_harness::skills::{is_valid_name, parse_frontmatter, scan_skills, Skill, SkillFolder};

const REPO: &str = "/tmp/repo";

fn skill_dir(folder: &str, content: &str) -> SkillFolder {
    SkillFolder {
        folder: folder.to_string(),
        path: format!("{REPO}/skills/{folder}"),
        is_dir: true,
        has_skill_md: true,
        content: Ok(content.to_string()),
    }
}

fn scan(entries: Vec<SkillFolder>) -> Result<Vec<Skill>, String> {
    scan_skills(REPO, true, &entries)
}

#[test]
fn missing_skills_dir_is_an_error() {
    let err = scan_skills(REPO, false, &Vec::new()).unwrap_err();
    assert!(err.contains("skills"), "error should mention skills/: {err}");
    assert_eq!(err, "no skills/ directory found in /tmp/repo");
}

#[test]
fn valid_skill_folder_is_returned_with_name_and_path() {
    let skills = scan(vec![skill_dir(
        "define",
        "---\nname: define\ndescription: Grill the user.\n---\nBody\n",
    )])
    .unwrap();
    assert_eq!(skills.len(), 1);
    assert_eq!(skills[0].name, "define");
    assert_eq!(skills[0].path, "/tmp/repo/skills/define");
}

#[test]
fn folder_without_skill_md_is_an_error() {
    let entry = SkillFolder {
        folder: "broken".to_string(),
        path: format!("{REPO}/skills/broken"),
        is_dir: true,
        has_skill_md: false,
        content: Err("not read".to_string()),
    };
    let err = scan(vec![entry]).unwrap_err();
    assert!(err.contains("broken"), "error should name the offending folder: {err}");
    assert_eq!(err, "skills/broken is missing SKILL.md");
}

#[test]
fn loose_files_in_skills_dir_are_ignored() {
    let readme = SkillFolder {
        folder: "README.md".to_string(),
        path: format!("{REPO}/skills/README.md"),
        is_dir: false,
        has_skill_md: false,
        content: Err("not read".to_string()),
    };
    let skills = scan(vec![skill_dir("define", "---\nname: define\ndescription: d\n---\n"), readme]).unwrap();
    assert_eq!(skills.len(), 1);
}

#[test]
fn unterminated_frontmatter_is_an_error() {
    let err = scan(vec![skill_dir("define", "---\nname: define\ndescription: d\nBody never closes")])
        .unwrap_err();
    assert!(err.contains("define"), "error should name the skill: {err}");
    assert_eq!(err, "skills/define: invalid or missing frontmatter (name, description)");
}

#[test]
fn empty_required_frontmatter_field_is_an_error() {
    let err = scan(vec![skill_dir("define", "---\nname: define\ndescription:\n---\n")]).unwrap_err();
    assert!(err.contains("define"), "error should name the skill: {err}");
}

#[test]
fn frontmatter_name_mismatching_folder_is_an_error() {
    let err = scan(vec![skill_dir("define", "---\nname: grill\ndescription: d\n---\n")]).unwrap_err();
    assert!(err.contains("define"), "error should name the folder: {err}");
    assert!(err.contains("grill"), "error should name the frontmatter: {err}");
    assert_eq!(err, "skills/define: frontmatter name 'grill' does not match folder name");
}

#[test]
fn skill_name_with_invalid_characters_is_an_error() {
    for bad in ["Bad", "has space", "-lead", "1-2-"] {
        let err = scan(vec![skill_dir(bad, &format!("---\nname: {bad}\ndescription: d\n---\n"))])
            .unwrap_err();
        assert!(err.contains(bad), "error should name '{bad}': {err}");
        assert_eq!(err, format!("skills/{bad}: invalid skill name '{bad}'"));
    }
}

#[test]
fn missing_required_frontmatter_field_is_an_error() {
    assert!(scan(vec![skill_dir("define", "---\nname: define\n---\n")]).unwrap_err().contains("define"));
    assert!(scan(vec![skill_dir("define", "no frontmatter here")]).unwrap_err().contains("define"));
}

#[test]
fn read_error_names_the_folder() {
    let entry = SkillFolder {
        folder: "define".to_string(),
        path: format!("{REPO}/skills/define"),
        is_dir: true,
        has_skill_md: true,
        content: Err("permission denied".to_string()),
    };
    assert_eq!(scan(vec![entry]).unwrap_err(), "skills/define: permission denied");
}

#[test]
fn first_bad_folder_decides_the_error_and_nothing_is_returned() {
    let err = scan(vec![
        skill_dir("good", "---\nname: good\ndescription: d\n---\n"),
        skill_dir("bad", "---\nname: Bad\ndescription: d\n---\n"),
        skill_dir("worse", "nothing"),
    ])
    .unwrap_err();
    assert_eq!(err, "skills/bad: invalid skill name 'Bad'");
}

#[test]
fn skills_keep_listing_order() {
    let skills = scan(vec![
        skill_dir("zeta", "---\nname: zeta\ndescription: d\n---\n"),
        skill_dir("alpha", "---\nname: alpha\ndescription: d\n---\n"),
    ])
    .unwrap();
    let names: Vec<_> = skills.iter().map(|s| s.name.clone()).collect();
    assert_eq!(names, vec!["zeta".to_string(), "alpha".to_string()]);
}

#[test]
fn valid_names() {
    for good in ["a", "define", "kick-off", "a1-b2-c3", "123", "x-9"] {
        assert!(is_valid_name(good), "{good:?}");
    }
    for bad in ["", "-", "Bad", "has space", "-lead", "trail-", "1-2-", "a--b", "é", "a_b", "a.b"] {
        assert!(!is_valid_name(bad), "{bad:?}");
    }
}

#[test]
fn frontmatter_gives_name_and_description() {
    assert_eq!(
        parse_frontmatter("---\nname: define\ndescription: Grill the user.\n---\nBody\n"),
        Some(("define".to_string(), "Grill the user.".to_string()))
    );
}

#[test]
fn frontmatter_tolerates_crlf_and_spaces() {
    assert_eq!(
        parse_frontmatter("  ---  \r\n  name :  a b \r\ndescription:x: y\r\n---\r\n"),
        Some(("a b".to_string(), "x: y".to_string()))
    );
}

#[test]
fn frontmatter_later_value_wins_and_empty_values_are_ignored() {
    assert_eq!(
        parse_frontmatter("---\nname: one\nname: two\nname:   \ndescription: d\nother: z\n---"),
        Some(("two".to_string(), "d".to_string()))
    );
}

#[test]
fn frontmatter_rejects_missing_opening_or_closing_line() {
    assert_eq!(parse_frontmatter(""), None);
    assert_eq!(parse_frontmatter("\n---\nname: a\ndescription: d\n---\n"), None);
    assert_eq!(parse_frontmatter("---\nname: a\ndescription: d\n"), None);
    assert_eq!(parse_frontmatter("---"), None);
    assert_eq!(parse_frontmatter("---\n---\n"), None);
}
