use oh_my_harness::commands::scan_commands;
use oh_my_harness::listing::MarkdownEntry;

const REPO: &str = "/tmp/repo";

fn file(name: &str) -> MarkdownEntry {
    MarkdownEntry { file_name: name.to_string(), path: format!("{REPO}/commands/{name}"), is_dir: false }
}

fn dir(name: &str) -> MarkdownEntry {
    MarkdownEntry { file_name: name.to_string(), path: format!("{REPO}/commands/{name}"), is_dir: true }
}

#[test]
fn repo_without_commands_dir_scans_no_commands() {
    let commands = scan_commands(false, &Vec::new()).unwrap();
    assert!(commands.is_empty());
}

#[test]
fn top_level_md_files_are_scanned_as_commands() {
    let commands = scan_commands(true, &vec![file("wrap-up.md"), file("kick-off.md")]).unwrap();
    let names: Vec<_> = commands.iter().map(|a| a.name.clone()).collect();
    assert_eq!(names, vec!["kick-off".to_string(), "wrap-up".to_string()]);
    assert_eq!(commands[0].path, "/tmp/repo/commands/kick-off.md");
}

#[test]
fn commands_subdirectories_and_non_md_files_are_ignored() {
    let entries = vec![dir("nested"), file("notes.txt"), file(".DS_Store"), file("kick-off.md")];
    let commands = scan_commands(true, &entries).unwrap();
    assert_eq!(commands.len(), 1);
}

#[test]
fn commands_readme_md_is_ignored() {
    let commands = scan_commands(true, &vec![file("README.md"), file("kick-off.md")]).unwrap();
    assert_eq!(commands.len(), 1);
    assert_eq!(commands[0].name, "kick-off");
}

#[test]
fn commands_uppercase_md_extension_is_ignored() {
    let commands = scan_commands(true, &vec![file("kick-off.MD")]).unwrap();
    assert!(commands.is_empty());
}

#[test]
fn invalid_command_name_is_an_error() {
    let err = scan_commands(true, &vec![file("My Command.md")]).unwrap_err();
    assert!(
        err.contains("My Command") && err.contains("invalid command name"),
        "error should name the offender: {err}"
    );
    assert_eq!(err, "commands/My Command.md: invalid command name 'My Command'");
}

#[test]
fn commands_hidden_md_file_is_an_error() {
    let err = scan_commands(true, &vec![file(".hidden.md")]).unwrap_err();
    assert!(err.contains(".hidden"), "error should name the file: {err}");
}

#[test]
fn a_directory_named_like_a_command_is_ignored() {
    let commands = scan_commands(true, &vec![dir("developer.md")]).unwrap();
    assert!(commands.is_empty());
}

#[test]
fn every_trailing_md_suffix_is_removed_from_commands() {
    let commands = scan_commands(true, &vec![file("a.md.md")]).unwrap();
    assert_eq!(commands[0].name, "a");
    let err = scan_commands(true, &vec![file(".md")]).unwrap_err();
    assert_eq!(err, "commands/.md: invalid command name ''");
}

#[test]
fn commands_come_sorted_and_equal_names_keep_listing_order() {
    let entries = vec![file("zed.md"), file("b.md.md"), file("alpha.md"), file("b.md")];
    let commands = scan_commands(true, &entries).unwrap();
    let got: Vec<_> = commands.iter().map(|a| (a.name.clone(), a.path.clone())).collect();
    assert_eq!(
        got,
        vec![
            ("alpha".to_string(), "/tmp/repo/commands/alpha.md".to_string()),
            ("b".to_string(), "/tmp/repo/commands/b.md.md".to_string()),
            ("b".to_string(), "/tmp/repo/commands/b.md".to_string()),
            ("zed".to_string(), "/tmp/repo/commands/zed.md".to_string()),
        ]
    );
}
