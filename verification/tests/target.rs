use oh_my_harness::target::{item_paths, join_path, resolve_agents_dir, resolve_skills_dir, target_path};
use oh_my_harness::DEFAULT_REPO;

#[test]
fn global_installs_to_config_opencode_skills() {
    let dir = resolve_skills_dir(None, "/home/u");
    assert_eq!(dir, "/home/u/.config/opencode/skills");
}

#[test]
fn local_installs_to_dot_opencode_skills() {
    let dir = resolve_skills_dir(Some("/proj"), "/home/u");
    assert_eq!(dir, "/proj/.opencode/skills");
}

#[test]
fn default_repo_is_the_harness_url() {
    assert_eq!(DEFAULT_REPO, "https://github.com/sheltonsuen/oh-my-harness");
}

#[test]
fn global_installs_agents_to_config_opencode_agents() {
    assert_eq!(resolve_agents_dir(None, "/home/u"), "/home/u/.config/opencode/agents");
}

#[test]
fn local_installs_agents_to_dot_opencode_agents() {
    assert_eq!(resolve_agents_dir(Some("/proj"), "/home/u"), "/proj/.opencode/agents");
}

#[test]
fn join_adds_one_separator() {
    assert_eq!(join_path("/a", "b"), "/a/b");
    assert_eq!(join_path("/a/", "b"), "/a/b");
    assert_eq!(join_path("", "b"), "b");
    assert_eq!(join_path("/", "b"), "/b");
}

#[test]
fn project_dir_with_trailing_slash_gives_same_root() {
    assert_eq!(resolve_skills_dir(Some("/proj/"), "/home/u"), "/proj/.opencode/skills");
}

#[test]
fn skills_and_agents_have_their_own_targets_and_staging_places() {
    let (t, s) = item_paths("/d/skills", "/d/agents", "demo", false, 4021);
    assert_eq!(t, "/d/skills/demo");
    assert_eq!(s, "/d/skills/.demo.staging-4021");
    let (t, s) = item_paths("/d/skills", "/d/agents", "dev", true, 7);
    assert_eq!(t, "/d/agents/dev.md");
    assert_eq!(s, "/d/agents/.dev.md.staging-7");
    assert_eq!(target_path("/d/skills/", "/d/agents", "x", false), "/d/skills/x");
}
