use vstd::prelude::*;

use crate::text;

verus! {

/// What `Path::join` gives, on Unix, for a relative component `part` that holds
/// no separator: `part` appended to `base`, with a `/` between them unless
/// `base` is empty or already ends with one.
pub open spec fn join(base: Seq<char>, part: Seq<char>) -> Seq<char> {
    if base.len() == 0 || base.last() == '/' {
        base + part
    } else {
        base + "/"@ + part
    }
}

pub fn join_path(base: &str, part: &str) -> (r: String)
    ensures
        r@ == join(base@, part@),
{
    let n = base.unicode_len();
    let mut r = String::from_str(base);
    if n > 0 && base.get_char(n - 1) != '/' {
        r.append("/");
    }
    r.append(part);
    r
}

/// Where skills are installed. opencode's global skills root is
/// `~/.config/opencode/skills` while its project-local root is
/// `<project>/.opencode/skills` (a deliberate asymmetry).
pub open spec fn skills_dir(project_dir: Option<Seq<char>>, home: Seq<char>) -> Seq<char> {
    match project_dir {
        Some(dir) => join(join(dir, ".opencode"@), "skills"@),
        None => join(join(join(home, ".config"@), "opencode"@), "skills"@),
    }
}

/// Where agents are installed: `~/.config/opencode/agents`, or
/// `<project>/.opencode/agents` for a project-local install.
pub open spec fn agents_dir(project_dir: Option<Seq<char>>, home: Seq<char>) -> Seq<char> {
    match project_dir {
        Some(dir) => join(join(dir, ".opencode"@), "agents"@),
        None => join(join(join(home, ".config"@), "opencode"@), "agents"@),
    }
}

pub open spec fn opt_view(o: Option<&str>) -> Option<Seq<char>> {
    match o {
        Some(s) => Some(s@),
        None => None,
    }
}

fn opencode_dir(project_dir: Option<&str>, home: &str, leaf: &str) -> (r: String)
    ensures
        r@ == match opt_view(project_dir) {
            Some(dir) => join(join(dir, ".opencode"@), leaf@),
            None => join(join(join(home@, ".config"@), "opencode"@), leaf@),
        },
{
    match project_dir {
        Some(dir) => {
            let base = join_path(dir, ".opencode");
            join_path(base.as_str(), leaf)
        },
        None => {
            let config = join_path(home, ".config");
            let base = join_path(config.as_str(), "opencode");
            join_path(base.as_str(), leaf)
        },
    }
}

/// The directory that skills are installed into.
pub fn resolve_skills_dir(project_dir: Option<&str>, home: &str) -> (r: String)
    ensures
        r@ == skills_dir(opt_view(project_dir), home@),
        project_dir matches Some(d) ==> r@ == d@ + sep_after(d@) + ".opencode/skills"@,
        project_dir is None ==> r@ == home@ + sep_after(home@) + ".config/opencode/skills"@,
{
    proof {
        if let Some(d) = project_dir {
            lemma_project_roots(d@, home@, home@);
        } else {
            lemma_global_roots(home@);
        }
    }
    opencode_dir(project_dir, home, "skills")
}

/// The directory that agents are installed into.
pub fn resolve_agents_dir(project_dir: Option<&str>, home: &str) -> (r: String)
    ensures
        r@ == agents_dir(opt_view(project_dir), home@),
        project_dir matches Some(d) ==> r@ == d@ + sep_after(d@) + ".opencode/agents"@,
        project_dir is None ==> r@ == home@ + sep_after(home@) + ".config/opencode/agents"@,
{
    proof {
        if let Some(d) = project_dir {
            lemma_project_roots(d@, home@, home@);
        } else {
            lemma_global_roots(home@);
        }
    }
    opencode_dir(project_dir, home, "agents")
}


/// The file or folder name an item is installed under: a skill's folder is
/// its name, an agent's file is `<name>.md`.
pub open spec fn item_file_name(name: Seq<char>, is_agent: bool) -> Seq<char> {
    if is_agent {
        name + ".md"@
    } else {
        name
    }
}

/// Where an item is installed: under the skills root for a skill, under the
/// agents root for an agent.
pub open spec fn item_target(skills_dest: Seq<char>, agents_dest: Seq<char>, name: Seq<char>, is_agent: bool) -> Seq<char> {
    join(if is_agent { agents_dest } else { skills_dest }, item_file_name(name, is_agent))
}

/// Where an item is copied before it replaces its target: a hidden
/// `.<file name>.staging-<pid>` beside the target.
pub open spec fn item_staging(
    skills_dest: Seq<char>,
    agents_dest: Seq<char>,
    name: Seq<char>,
    is_agent: bool,
    pid: u32,
) -> Seq<char> {
    join(
        if is_agent {
            agents_dest
        } else {
            skills_dest
        },
        "."@ + item_file_name(name, is_agent) + ".staging-"@ + text::decimal(pid as nat),
    )
}

fn file_name_of(name: &str, is_agent: bool) -> (r: String)
    ensures
        r@ == item_file_name(name@, is_agent),
{
    let mut r = String::from_str(name);
    if is_agent {
        r.append(".md");
    }
    r
}

/// Where an item is installed.
pub fn target_path(skills_dest: &str, agents_dest: &str, name: &str, is_agent: bool) -> (r: String)
    ensures
        r@ == item_target(skills_dest@, agents_dest@, name@, is_agent),
{
    let dest = if is_agent {
        agents_dest
    } else {
        skills_dest
    };
    let file = file_name_of(name, is_agent);
    join_path(dest, file.as_str())
}

/// The target and the staging place of an item, for the process `pid`.
pub fn item_paths(skills_dest: &str, agents_dest: &str, name: &str, is_agent: bool, pid: u32) -> (r: (String, String))
    ensures
        r.0@ == item_target(skills_dest@, agents_dest@, name@, is_agent),
        r.1@ == item_staging(skills_dest@, agents_dest@, name@, is_agent, pid),
{
    let dest = if is_agent {
        agents_dest
    } else {
        skills_dest
    };
    let file = file_name_of(name, is_agent);
    let target = target_path(skills_dest, agents_dest, name, is_agent);
    let mut staging_name = String::from_str(".");
    staging_name.append(file.as_str());
    staging_name.append(".staging-");
    let digits = text::decimal_string(pid);
    staging_name.append(digits.as_str());
    let staging = join_path(dest, staging_name.as_str());
    (target, staging)
}


/// The separator that `join` puts after `base`: none after an empty base or
/// one that ends in `/`, else one `/`.
pub open spec fn sep_after(base: Seq<char>) -> Seq<char> {
    if base.len() == 0 || base[base.len() - 1] == '/' {
        Seq::empty()
    } else {
        seq!['/']
    }
}

/// With a project directory `d`, relative or absolute, the install roots are
/// `d` followed by `.opencode/skills` and `.opencode/agents` (with a `/`
/// between unless `d` is empty or ends in one), and the home directory plays
/// no part in them.
pub proof fn lemma_project_roots(d: Seq<char>, home: Seq<char>, other_home: Seq<char>)
    ensures
        skills_dir(Some(d), home) == d + sep_after(d) + ".opencode/skills"@,
        agents_dir(Some(d), home) == d + sep_after(d) + ".opencode/agents"@,
        skills_dir(Some(d), home) == skills_dir(Some(d), other_home),
        agents_dir(Some(d), home) == agents_dir(Some(d), other_home),
{
    reveal_strlit("/");
    reveal_strlit(".opencode");
    reveal_strlit("skills");
    reveal_strlit("agents");
    reveal_strlit(".opencode/skills");
    reveal_strlit(".opencode/agents");
    let base = join(d, ".opencode"@);
    assert(base =~= d + sep_after(d) + ".opencode"@);
    assert(base[base.len() - 1] == 'e');
    assert(join(base, "skills"@) =~= d + sep_after(d) + ".opencode/skills"@);
    assert(join(base, "agents"@) =~= d + sep_after(d) + ".opencode/agents"@);
}

/// Without a project directory the install roots are the home directory
/// followed by `.config/opencode/skills` and `.config/opencode/agents`.
pub proof fn lemma_global_roots(home: Seq<char>)
    ensures
        skills_dir(None, home) == home + sep_after(home) + ".config/opencode/skills"@,
        agents_dir(None, home) == home + sep_after(home) + ".config/opencode/agents"@,
{
    reveal_strlit("/");
    reveal_strlit(".config");
    reveal_strlit("opencode");
    reveal_strlit("skills");
    reveal_strlit("agents");
    reveal_strlit(".config/opencode/skills");
    reveal_strlit(".config/opencode/agents");
    let c = join(home, ".config"@);
    assert(c =~= home + sep_after(home) + ".config"@);
    assert(c[c.len() - 1] == 'g');
    let o = join(c, "opencode"@);
    assert(o =~= home + sep_after(home) + ".config/opencode"@) by {
        reveal_strlit(".config/opencode");
    }
    reveal_strlit(".config/opencode");
    assert(o[o.len() - 1] == 'e');
    assert(join(o, "skills"@) =~= home + sep_after(home) + ".config/opencode/skills"@);
    assert(join(o, "agents"@) =~= home + sep_after(home) + ".config/opencode/agents"@);
}

} // verus!
