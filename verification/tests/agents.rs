use oh_my_harness::agents::scan_agents;
use oh_my_harness::listing::MarkdownEntry;

const REPO: &str = "/tmp/repo";

fn file(name: &str) -> MarkdownEntry {
    MarkdownEntry { file_name: name.to_string(), path: format!("{REPO}/agents/{name}"), is_dir: false }
}

fn dir(name: &str) -> MarkdownEntry {
    MarkdownEntry { file_name: name.to_string(), path: format!("{REPO}/agents/{name}"), is_dir: true }
}

#[test]
fn repo_without_agents_dir_scans_no_agents() {
    let agents = scan_agents(false, &Vec::new()).unwrap();
    assert!(agents.is_empty());
}

#[test]
fn top_level_md_files_are_scanned_as_agents() {
    let agents = scan_agents(true, &vec![file("tester.md"), file("developer.md")]).unwrap();
    let names: Vec<_> = agents.iter().map(|a| a.name.clone()).collect();
    assert_eq!(names, vec!["developer".to_string(), "tester".to_string()]);
    assert_eq!(agents[0].path, "/tmp/repo/agents/developer.md");
}

#[test]
fn agents_subdirectories_and_non_md_files_are_ignored() {
    let entries = vec![dir("nested"), file("notes.txt"), file(".DS_Store"), file("developer.md")];
    let agents = scan_agents(true, &entries).unwrap();
    assert_eq!(agents.len(), 1);
}

#[test]
fn agents_readme_md_is_ignored() {
    let agents = scan_agents(true, &vec![file("README.md"), file("developer.md")]).unwrap();
    assert_eq!(agents.len(), 1);
    assert_eq!(agents[0].name, "developer");
}

#[test]
fn agents_uppercase_md_extension_is_ignored() {
    let agents = scan_agents(true, &vec![file("developer.MD")]).unwrap();
    assert!(agents.is_empty());
}

#[test]
fn invalid_agent_name_is_an_error() {
    let err = scan_agents(true, &vec![file("My Agent.md")]).unwrap_err();
    assert!(
        err.contains("My Agent") && err.contains("invalid agent name"),
        "error should name the offender: {err}"
    );
    assert_eq!(err, "agents/My Agent.md: invalid agent name 'My Agent'");
}

#[test]
fn agents_hidden_md_file_is_an_error() {
    let err = scan_agents(true, &vec![file(".hidden.md")]).unwrap_err();
    assert!(err.contains(".hidden"), "error should name the file: {err}");
}

#[test]
fn a_directory_named_like_an_agent_is_ignored() {
    let agents = scan_agents(true, &vec![dir("developer.md")]).unwrap();
    assert!(agents.is_empty());
}

#[test]
fn every_trailing_md_suffix_is_removed() {
    let agents = scan_agents(true, &vec![file("a.md.md")]).unwrap();
    assert_eq!(agents[0].name, "a");
    let err = scan_agents(true, &vec![file(".md")]).unwrap_err();
    assert_eq!(err, "agents/.md: invalid agent name ''");
}

#[test]
fn agents_come_sorted_and_equal_names_keep_listing_order() {
    let entries = vec![file("zed.md"), file("b.md.md"), file("alpha.md"), file("b.md")];
    let agents = scan_agents(true, &entries).unwrap();
    let got: Vec<_> = agents.iter().map(|a| (a.name.clone(), a.path.clone())).collect();
    assert_eq!(
        got,
        vec![
            ("alpha".to_string(), "/tmp/repo/agents/alpha.md".to_string()),
            ("b".to_string(), "/tmp/repo/agents/b.md.md".to_string()),
            ("b".to_string(), "/tmp/repo/agents/b.md".to_string()),
            ("zed".to_string(), "/tmp/repo/agents/zed.md".to_string()),
        ]
    );
}
