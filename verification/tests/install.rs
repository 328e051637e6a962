use oh_my_harness::install::{report_lines, Event, Installer, Report, Step};
use oh_my_harness::agents::Agent;
use oh_my_harness::skills::{scan_skills, Skill};

fn names(v: &[&str]) -> Vec<String> {
    v.iter().map(|s| s.to_string()).collect()
}

fn skills(v: &[&str]) -> Vec<Skill> {
    v.iter().map(|s| Skill { name: s.to_string(), path: format!("/src/skills/{s}") }).collect()
}

fn agents(v: &[&str]) -> Vec<Agent> {
    v.iter().map(|s| Agent { name: s.to_string(), path: format!("/src/agents/{s}.md") }).collect()
}

/// Runs an install to its end: `answer` says what came of each step.
fn run(repo: &str, force: bool, mut answer: impl FnMut(Step) -> Event) -> (Vec<Step>, Result<Report, String>) {
    let mut installer = Installer::new(repo, force);
    let mut steps = vec![installer.current_step()];
    loop {
        let step = *steps.last().unwrap();
        if let Step::Finish { .. } = step {
            break;
        }
        let next = installer.step(answer(step));
        steps.push(next);
        assert!(steps.len() < 100, "install does not end");
    }
    (steps, installer.into_result())
}

/// A file system in which every step succeeds, the repo is (or is not) a local
/// directory, the scan finds `skills` and `agents`, and the targets in
/// `existing` already exist.
fn world(local: bool, skills: Vec<Skill>, agents: Vec<Agent>, existing: Vec<usize>) -> impl FnMut(Step) -> Event {
    move |step| match step {
        Step::CheckRepo => Event::RepoIsDir(local),
        Step::CreateCloneDir => Event::CloneDirCreated("/tmp/omh-clone-7-9".to_string()),
        Step::Scan => Event::Scanned(Ok(skills.clone()), Ok(agents.clone())),
        Step::CheckTarget(i) => Event::TargetExists(existing.contains(&i)),
        _ => Event::Succeeded,
    }
}

#[test]
fn url_repo_is_shallow_cloned_installed_and_tmp_cleaned() {
    let (steps, result) = run("https://example.com/repo.git", false, world(false, skills(&["demo"]), vec![], vec![]));
    assert_eq!(
        steps,
        vec![
            Step::CheckRepo,
            Step::CreateCloneDir,
            Step::Clone,
            Step::Scan,
            Step::CreateDest,
            Step::CheckTarget(0),
            Step::Stage(0),
            Step::ClearTarget(0),
            Step::Rename(0),
            Step::Finish { remove_staging: None, remove_clone: true },
        ]
    );
    let report = result.unwrap();
    assert_eq!(report.installed, vec!["demo".to_string()]);
}

#[test]
fn existing_skill_is_skipped_and_left_untouched() {
    let (steps, result) = run("/tmp/repo2", false, world(true, skills(&["demo"]), vec![], vec![0]));
    assert!(!steps.iter().any(|s| matches!(s, Step::Stage(_) | Step::ClearTarget(_) | Step::Rename(_))));
    let report = result.unwrap();
    assert_eq!(report.skipped, vec!["demo".to_string()]);
    assert!(report.installed.is_empty());
    assert_eq!(steps.last(), Some(&Step::Finish { remove_staging: None, remove_clone: false }));
}

#[test]
fn force_overwrites_existing_skill() {
    let (steps, result) = run("/tmp/repo3", true, world(true, skills(&["demo"]), vec![], vec![0]));
    assert!(steps.contains(&Step::ClearTarget(0)));
    assert_eq!(result.unwrap().installed, vec!["demo".to_string()]);
}

#[test]
fn one_invalid_skill_aborts_whole_install() {
    let scan_error = "skills/bad is missing SKILL.md".to_string();
    let (steps, result) = run("/tmp/repo4", false, move |step| match step {
        Step::CheckRepo => Event::RepoIsDir(true),
        Step::Scan => Event::Scanned(Err(scan_error.clone()), Ok(vec![])),
        _ => Event::Succeeded,
    });
    let err = result.unwrap_err();
    assert!(err.contains("bad"), "error should name offender: {err}");
    assert!(!steps.iter().any(|s| matches!(s, Step::CreateDest | Step::Stage(_))));
}

#[test]
fn tmp_clone_is_cleaned_when_install_fails_after_clone() {
    let (steps, result) = run("https://example.com/x.git", false, |step| match step {
        Step::CheckRepo => Event::RepoIsDir(false),
        Step::CreateCloneDir => Event::CloneDirCreated("/tmp/omh-clone-1-2".to_string()),
        Step::Scan => Event::Scanned(Err("skills/broken is missing SKILL.md".to_string()), Ok(vec![])),
        _ => Event::Succeeded,
    });
    assert!(result.unwrap_err().contains("broken"));
    assert_eq!(steps.last(), Some(&Step::Finish { remove_staging: None, remove_clone: true }));
}

#[test]
fn missing_skills_error_names_the_repo_not_the_tmp_dir() {
    let clone_dir = "/tmp/omh-clone-7-9";
    let scan_error = scan_skills(clone_dir, false, &Vec::new()).unwrap_err();
    let (steps, result) = run("https://example.com/y.git", false, move |step| match step {
        Step::CheckRepo => Event::RepoIsDir(false),
        Step::CreateCloneDir => Event::CloneDirCreated(clone_dir.to_string()),
        Step::Scan => Event::Scanned(Err(scan_error.clone()), Ok(vec![])),
        _ => Event::Succeeded,
    });
    let err = result.unwrap_err();
    assert!(err.contains("https://example.com/y.git"), "error should name the repo the user passed: {err}");
    assert!(!err.contains("omh-clone"), "error must not leak the tmp clone dir: {err}");
    assert_eq!(steps.last(), Some(&Step::Finish { remove_staging: None, remove_clone: true }));
}

#[test]
fn failed_force_copy_leaves_existing_skill_untouched() {
    let (steps, result) = run("/tmp/repo5", true, |step| match step {
        Step::CheckRepo => Event::RepoIsDir(true),
        Step::Scan => Event::Scanned(Ok(skills(&["demo"])), Ok(vec![])),
        Step::CheckTarget(_) => Event::TargetExists(true),
        Step::Stage(_) => Event::Failed("Permission denied (os error 13)".to_string()),
        _ => Event::Succeeded,
    });
    assert!(result.is_err(), "unreadable source must fail the install");
    assert!(!steps.contains(&Step::ClearTarget(0)), "a failed force copy must not destroy the existing skill");
    assert_eq!(steps.last(), Some(&Step::Finish { remove_staging: Some(0), remove_clone: false }));
}

#[test]
fn local_dir_repo_copies_whole_skill_folders() {
    let (steps, result) = run("/tmp/repo", false, world(true, skills(&["define"]), vec![], vec![]));
    assert!(!steps.contains(&Step::Clone));
    assert_eq!(result.unwrap().installed, vec!["define".to_string()]);
}

#[test]
fn skills_then_agents_are_installed_or_skipped() {
    let mut installer = Installer::new("/tmp/repo", false);
    assert_eq!(installer.step(Event::RepoIsDir(true)), Step::Scan);
    assert_eq!(
        installer.step(Event::Scanned(Ok(skills(&["a", "b"])), Ok(agents(&["dev"])))),
        Step::CreateDest
    );
    assert_eq!(installer.item(0), Some(("a".to_string(), "/src/skills/a".to_string(), false)));
    assert_eq!(installer.item(2), Some(("dev".to_string(), "/src/agents/dev.md".to_string(), true)));
    assert_eq!(installer.item(3), None);
    let (steps, result) = run("/tmp/repo", false, world(true, skills(&["a", "b"]), agents(&["dev", "ops"]), vec![1, 3]));
    assert!(steps.contains(&Step::Rename(2)));
    let report = result.unwrap();
    assert_eq!(report.installed, names(&["a"]));
    assert_eq!(report.skipped, names(&["b"]));
    assert_eq!(report.agents_installed, names(&["dev"]));
    assert_eq!(report.agents_skipped, names(&["ops"]));
    assert!(!report.is_empty());
}

#[test]
fn failed_agent_scan_stops_the_install() {
    let (steps, result) = run("/tmp/repo", false, |step| match step {
        Step::CheckRepo => Event::RepoIsDir(true),
        Step::Scan => Event::Scanned(Ok(skills(&["a"])), Err("agents/X.md: invalid agent name 'X'".to_string())),
        _ => Event::Succeeded,
    });
    assert_eq!(result.unwrap_err(), "agents/X.md: invalid agent name 'X'");
    assert!(!steps.contains(&Step::CreateDest));
}

#[test]
fn clone_and_dest_failures_end_the_install() {
    let (steps, result) = run("https://x/y.git", false, |step| match step {
        Step::CheckRepo => Event::RepoIsDir(false),
        Step::CreateCloneDir => Event::CloneDirCreated("/tmp/c".to_string()),
        Step::Clone => Event::Failed("git clone failed: fatal".to_string()),
        _ => Event::Succeeded,
    });
    assert_eq!(result.unwrap_err(), "git clone failed: fatal");
    assert_eq!(steps.last(), Some(&Step::Finish { remove_staging: None, remove_clone: true }));

    let (steps, result) = run("https://x/y.git", false, |step| match step {
        Step::CheckRepo => Event::RepoIsDir(false),
        Step::CreateCloneDir => Event::Failed("no space".to_string()),
        _ => Event::Succeeded,
    });
    assert_eq!(result.unwrap_err(), "no space");
    assert_eq!(steps.last(), Some(&Step::Finish { remove_staging: None, remove_clone: false }));

    let (_, result) = run("/tmp/repo", false, |step| match step {
        Step::CheckRepo => Event::RepoIsDir(true),
        Step::Scan => Event::Scanned(Ok(vec![]), Ok(vec![])),
        Step::CreateDest => Event::Failed("read-only".to_string()),
        _ => Event::Succeeded,
    });
    assert_eq!(result.unwrap_err(), "read-only");
}

#[test]
fn clear_and_rename_failures_remove_the_staged_copy() {
    for failing in [Step::ClearTarget(0), Step::Rename(0)] {
        let (steps, result) = run("/tmp/repo", true, move |step| {
            if step == failing {
                return Event::Failed("busy".to_string());
            }
            match step {
                Step::CheckRepo => Event::RepoIsDir(true),
                Step::Scan => Event::Scanned(Ok(skills(&["demo"])), Ok(vec![])),
                Step::CheckTarget(_) => Event::TargetExists(true),
                _ => Event::Succeeded,
            }
        });
        assert_eq!(result.unwrap_err(), "busy");
        assert_eq!(steps.last(), Some(&Step::Finish { remove_staging: Some(0), remove_clone: false }));
    }
}

#[test]
fn an_answer_to_another_step_changes_nothing() {
    let mut installer = Installer::new("/tmp/repo", false);
    assert_eq!(installer.step(Event::Succeeded), Step::CheckRepo);
    assert_eq!(installer.step(Event::TargetExists(true)), Step::CheckRepo);
}

#[test]
fn empty_repo_reports_nothing() {
    let (_, result) = run("/tmp/repo", false, world(true, vec![], vec![], vec![]));
    let report = result.unwrap();
    assert!(report.is_empty());
    assert!(Report::default().is_empty());
}

#[test]
fn report_lines_name_each_item_and_where_it_went() {
    let report = Report {
        installed: names(&["a"]),
        skipped: names(&["b"]),
        agents_installed: names(&["dev"]),
        agents_skipped: names(&["ops"]),
    };
    let (out, err) = report_lines(&report, "/h/.config/opencode/skills", "/h/.config/opencode/agents", "repo");
    assert_eq!(
        out,
        names(&[
            "installed skill a -> /h/.config/opencode/skills/a",
            "installed agent dev -> /h/.config/opencode/agents/dev.md",
        ])
    );
    assert_eq!(
        err,
        names(&[
            "skipped skill b (already exists, use --force)",
            "skipped agent ops (already exists, use --force)",
        ])
    );
    let (out, err) = report_lines(&Report::new(), "/s", "/a", "https://x/y.git");
    assert_eq!(out, names(&["no skills or agents found in https://x/y.git"]));
    assert!(err.is_empty());
}
