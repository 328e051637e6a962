use vstd::prelude::*;

use crate::text;

verus! {

/// A character that may appear in a skill, agent or command name.
pub open spec fn is_name_char(c: char) -> bool {
    ('a' <= c && c <= 'z') || ('0' <= c && c <= '9') || c == '-'
}

/// A valid name: non-empty, made of lowercase ASCII letters, ASCII digits and
/// `-`, neither starting nor ending with `-`, and with no two `-` in a row.
pub open spec fn valid_name(s: Seq<char>) -> bool {
    &&& s.len() > 0
    &&& forall|i: int| 0 <= i < s.len() ==> is_name_char(#[trigger] s[i])
    &&& s[0] != '-'
    &&& s.last() != '-'
    &&& forall|i: int| 0 <= i < s.len() - 1 ==> !(#[trigger] s[i] == '-' && s[i + 1] == '-')
}

pub fn is_valid_name(name: &str) -> (r: bool)
    ensures
        r == valid_name(name@),
        r <==> {
            &&& name@.len() > 0
            &&& forall|i: int|
                0 <= i < name@.len() ==> ('a' <= #[trigger] name@[i] && name@[i] <= 'z') || ('0'
                    <= name@[i] && name@[i] <= '9') || name@[i] == '-'
            &&& name@[0] != '-'
            &&& name@[name@.len() - 1] != '-'
            &&& forall|i: int|
                0 <= i < name@.len() - 1 ==> !(#[trigger] name@[i] == '-' && name@[i + 1] == '-')
        },
{
    proof {
        lemma_valid_name_characterized(name@);
    }
    let chars = text::chars_of(name);
    let n = chars.len();
    if n == 0 {
        return false;
    }
    // a leading '-' is rejected as if a '-' came before it
    let mut prev_was_dash = true;
    let mut i: usize = 0;
    while i < n
        invariant
            n == chars@.len() == name@.len(),
            chars@ == name@,
            0 < n,
            i <= n,
            prev_was_dash == (i == 0 || chars@[i - 1] == '-'),
            forall|j: int| 0 <= j < i ==> is_name_char(#[trigger] chars@[j]),
            i > 0 ==> chars@[0] != '-',
            forall|j: int| 0 <= j < i - 1 ==> !(#[trigger] chars@[j] == '-' && chars@[j + 1] == '-'),
        decreases n - i,
    {
        let c = chars[i];
        if c == '-' {
            if prev_was_dash {
                proof {
                    if i > 0 {
                        assert(chars@[i - 1] == '-' && chars@[(i - 1) + 1] == '-');
                    }
                }
                return false;
            }
            prev_was_dash = true;
        } else if ('a' <= c && c <= 'z') || ('0' <= c && c <= '9') {
            prev_was_dash = false;
        } else {
            assert(!is_name_char(chars@[i as int]));
            return false;
        }
        i = i + 1;
    }
    !prev_was_dash
}


/// The frontmatter fields gathered so far: `name` and `description`.
pub type Fields = (Option<Seq<char>>, Option<Seq<char>>);

/// The effect of one frontmatter line: a `key: value` line with a non-empty
/// (trimmed) value sets `name` or `description`; any other line changes nothing.
pub open spec fn apply_line(line: Seq<char>, fields: Fields) -> Fields {
    let k = text::char_pos(line, ':');
    if k < line.len() {
        let key = text::trim(line.take(k as int));
        let value = text::trim(line.skip(k + 1 as int));
        if value.len() == 0 {
            fields
        } else if key == "name"@ {
            (Some(value), fields.1)
        } else if key == "description"@ {
            (fields.0, Some(value))
        } else {
            fields
        }
    } else {
        fields
    }
}

/// The fields once the closing `---` line is reached, or `None` when no line
/// closes the frontmatter.
pub open spec fn scan_fields(lines: Seq<Seq<char>>, fields: Fields) -> Option<Fields>
    decreases lines.len(),
{
    if lines.len() == 0 {
        None
    } else if text::trim(lines[0]) == "---"@ {
        Some(fields)
    } else {
        scan_fields(lines.drop_first(), apply_line(lines[0], fields))
    }
}

/// The `(name, description)` of a frontmatter block: the first line is `---`,
/// a later `---` line closes the block, and both fields are set inside it.
pub open spec fn frontmatter(content: Seq<char>) -> Option<(Seq<char>, Seq<char>)> {
    let lines = text::split_lines(content);
    if lines.len() == 0 || text::trim(lines[0]) != "---"@ {
        None
    } else {
        match scan_fields(lines.drop_first(), (None, None)) {
            Some((Some(name), Some(description))) => Some((name, description)),
            _ => None,
        }
    }
}

pub open spec fn bounds_view(chars: Seq<char>, b: Option<(usize, usize)>) -> Option<Seq<char>> {
    match b {
        Some((x, y)) => Some(chars.subrange(x as int, y as int)),
        None => None,
    }
}

proof fn lemma_split_lines_step(chars: Seq<char>, p: int, e: int)
    requires
        0 <= p < chars.len(),
        p <= e <= chars.len(),
        e - p == text::char_pos(chars.subrange(p, chars.len() as int), '\n'),
    ensures
        text::split_lines(chars.subrange(p, chars.len() as int)).len() > 0,
        text::split_lines(chars.subrange(p, chars.len() as int))[0] == chars.subrange(p, e),
        text::split_lines(chars.subrange(p, chars.len() as int)).drop_first() == (if e
            < chars.len() {
            text::split_lines(chars.subrange(e + 1, chars.len() as int))
        } else {
            Seq::<Seq<char>>::empty()
        }),
{
    let s = chars.subrange(p, chars.len() as int);
    assert(s.take(e - p) =~= chars.subrange(p, e));
    if e < chars.len() {
        assert(s.skip(e - p + 1) =~= chars.subrange(e + 1, chars.len() as int));
        assert(text::split_lines(s) == seq![s.take(e - p)] + text::split_lines(s.skip(e - p + 1)));
        assert(text::split_lines(s).drop_first() =~= text::split_lines(s.skip(e - p + 1)));
    } else {
        assert(s =~= chars.subrange(p, e));
        assert(text::split_lines(s).drop_first() =~= Seq::<Seq<char>>::empty());
    }
}

/// Reads the `name` and `description` out of a `---`-delimited frontmatter block.
pub fn parse_frontmatter(content: &str) -> (r: Option<(String, String)>)
    ensures
        match r {
            Some((name, description)) => frontmatter(content@) == Some((name@, description@)),
            None => frontmatter(content@) is None,
        },
{
    let chars = text::chars_of(content);
    let len = chars.len();
    if len == 0 {
        return None;
    }
    let dashes = text::chars_of("---");
    let name_key = text::chars_of("name");
    let description_key = text::chars_of("description");
    let e0 = text::find_char(&chars, 0, len, '\n');
    proof {
        assert(chars@.subrange(0, len as int) =~= chars@);
        lemma_split_lines_step(chars@, 0, e0 as int);
    }
    let (a0, b0) = text::trim_bounds(&chars, 0, e0);
    if !text::range_eq(&chars, a0, b0, &dashes) {
        return None;
    }
    let mut p = if e0 < len {
        e0 + 1
    } else {
        len
    };
    let ghost rest = if e0 < len {
        text::split_lines(chars@.subrange(e0 + 1, len as int))
    } else {
        Seq::<Seq<char>>::empty()
    };
    assert(text::split_lines(content@).drop_first() == rest);
    let mut name: Option<(usize, usize)> = None;
    let mut description: Option<(usize, usize)> = None;
    while p < len
        invariant
            len == chars@.len(),
            chars@ == content@,
            dashes@ == "---"@,
            name_key@ == "name"@,
            description_key@ == "description"@,
            text::split_lines(content@).len() > 0,
            text::trim(text::split_lines(content@)[0]) == "---"@,
            text::split_lines(content@).drop_first() == rest,
            p <= len,
            match name {
                Some((x, y)) => x <= y <= len,
                None => true,
            },
            match description {
                Some((x, y)) => x <= y <= len,
                None => true,
            },
            scan_fields(rest, (None, None)) == scan_fields(
                if p < len {
                    text::split_lines(chars@.subrange(p as int, len as int))
                } else {
                    Seq::<Seq<char>>::empty()
                },
                (bounds_view(chars@, name), bounds_view(chars@, description)),
            ),
        decreases len - p,
    {
        let e = text::find_char(&chars, p, len, '\n');
        proof {
            lemma_split_lines_step(chars@, p as int, e as int);
        }
        let ghost line = chars@.subrange(p as int, e as int);
        let ghost before = (bounds_view(chars@, name), bounds_view(chars@, description));
        let (a, b) = text::trim_bounds(&chars, p, e);
        if text::range_eq(&chars, a, b, &dashes) {
            assert(scan_fields(text::split_lines(chars@.subrange(p as int, len as int)), before)
                == Some(before));
            assert(text::trim(text::split_lines(content@)[0]) == "---"@);
            return match (name, description) {
                (Some((nx, ny)), Some((dx, dy))) => {
                    let n = String::from_str(content.substring_char(nx, ny));
                    let d = String::from_str(content.substring_char(dx, dy));
                    Some((n, d))
                },
                _ => None,
            };
        }
        let k = text::find_char(&chars, p, e, ':');
        proof {
            text::lemma_char_pos_bound(line, ':');
            assert(line.take(k - p) =~= chars@.subrange(p as int, k as int));
            if k < e {
                assert(line.skip(k - p + 1) =~= chars@.subrange(k + 1, e as int));
            }
        }
        if k < e {
            let (ka, kb) = text::trim_bounds(&chars, p, k);
            let (va, vb) = text::trim_bounds(&chars, k + 1, e);
            if va < vb {
                if text::range_eq(&chars, ka, kb, &name_key) {
                    name = Some((va, vb));
                } else if text::range_eq(&chars, ka, kb, &description_key) {
                    description = Some((va, vb));
                }
            }
        }
        assert((bounds_view(chars@, name), bounds_view(chars@, description)) == apply_line(
            line,
            before,
        ));
        p = if e < len {
            e + 1
        } else {
            len
        };
    }
    None
}


/// What a scan finds: the `(name, path)` of each item, or an error message.
pub type Found = Result<Seq<(Seq<char>, Seq<char>)>, Seq<char>>;

/// A skill found in a repo: its name and the folder that holds it.
#[derive(Debug, Clone, PartialEq, Eq)]
pub struct Skill {
    pub name: String,
    pub path: String,
}

impl View for Skill {
    type V = (Seq<char>, Seq<char>);

    open spec fn view(&self) -> (Seq<char>, Seq<char>) {
        (self.name@, self.path@)
    }
}

/// One entry of a repo's `skills/` directory, as the file system showed it.
pub struct SkillFolder {
    /// The entry's file name.
    pub folder: String,
    /// The entry's path.
    pub path: String,
    pub is_dir: bool,
    /// Whether the entry holds a `SKILL.md` file.
    pub has_skill_md: bool,
    /// The text of `SKILL.md`, or the text of the error that reading it gave.
    pub content: Result<String, String>,
}

/// What one entry of `skills/` contributes: nothing (it is no directory), a
/// skill, or the error that stops the scan.
pub open spec fn folder_outcome(f: SkillFolder) -> Option<Result<(Seq<char>, Seq<char>), Seq<char>>> {
    let folder = f.folder@;
    if !f.is_dir {
        None
    } else if !f.has_skill_md {
        Some(Err("skills/"@ + folder + " is missing SKILL.md"@))
    } else {
        match f.content {
            Err(e) => Some(Err("skills/"@ + folder + ": "@ + e@)),
            Ok(content) => match frontmatter(content@) {
                None => Some(
                    Err(
                        "skills/"@ + folder
                            + ": invalid or missing frontmatter (name, description)"@,
                    ),
                ),
                Some((name, _description)) => if !valid_name(name) {
                    Some(Err("skills/"@ + folder + ": invalid skill name '"@ + name + "'"@))
                } else if name != folder {
                    Some(
                        Err(
                            "skills/"@ + folder + ": frontmatter name '"@ + name
                                + "' does not match folder name"@,
                        ),
                    )
                } else {
                    Some(Ok((name, f.path@)))
                },
            },
        }
    }
}

/// The skills of the entries, in order, or the error of the first entry that
/// has one.
pub open spec fn scan_folders(entries: Seq<SkillFolder>) -> Found
    decreases entries.len(),
{
    if entries.len() == 0 {
        Ok(Seq::empty())
    } else {
        match scan_folders(entries.drop_last()) {
            Err(e) => Err(e),
            Ok(found) => match folder_outcome(entries.last()) {
                None => Ok(found),
                Some(Err(e)) => Err(e),
                Some(Ok(skill)) => Ok(found.push(skill)),
            },
        }
    }
}

/// What scanning a repo gives: an error where it has no `skills/` directory,
/// else what its entries give.
pub open spec fn scan_skills_spec(repo_dir: Seq<char>, has_skills_dir: bool, entries: Seq<SkillFolder>) -> Found {
    if !has_skills_dir {
        Err("no skills/ directory found in "@ + repo_dir)
    } else {
        scan_folders(entries)
    }
}

/// Once a prefix of the entries fails, the whole scan fails with its error.
proof fn lemma_scan_folders_err(entries: Seq<SkillFolder>, i: int)
    requires
        0 <= i <= entries.len(),
        scan_folders(entries.take(i)) is Err,
    ensures
        scan_folders(entries) == scan_folders(entries.take(i)),
    decreases entries.len() - i,
{
    if i < entries.len() {
        assert(entries.take(i + 1).drop_last() =~= entries.take(i));
        lemma_scan_folders_err(entries, i + 1);
    } else {
        assert(entries.take(i) =~= entries);
    }
}

fn prefixed_message(prefix: &str, middle: &str, suffix: &str) -> (m: String)
    ensures
        m@ == prefix@ + middle@ + suffix@,
{
    let mut m = String::from_str(prefix);
    m.append(middle);
    m.append(suffix);
    m
}

fn folder_message(folder: &str, detail: &str) -> (m: String)
    ensures
        m@ == "skills/"@ + folder@ + detail@,
{
    prefixed_message("skills/", folder, detail)
}

fn check_folder(f: &SkillFolder) -> (r: Option<Result<Skill, String>>)
    ensures
        match (r, folder_outcome(*f)) {
            (None, None) => true,
            (Some(Ok(skill)), Some(Ok(v))) => skill@ == v,
            (Some(Err(e)), Some(Err(m))) => e@ == m,
            _ => false,
        },
{
    if !f.is_dir {
        return None;
    }
    let folder = f.folder.as_str();
    if !f.has_skill_md {
        return Some(Err(folder_message(folder, " is missing SKILL.md")));
    }
    match &f.content {
        Err(e) => {
            let mut m = folder_message(folder, ": ");
            m.append(e.as_str());
            Some(Err(m))
        },
        Ok(content) => match parse_frontmatter(content.as_str()) {
            None => Some(
                Err(folder_message(folder, ": invalid or missing frontmatter (name, description)")),
            ),
            Some((name, _description)) => {
                if !is_valid_name(name.as_str()) {
                    let mut m = folder_message(folder, ": invalid skill name '");
                    m.append(name.as_str());
                    m.append("'");
                    Some(Err(m))
                } else if name != f.folder {
                    let mut m = folder_message(folder, ": frontmatter name '");
                    m.append(name.as_str());
                    m.append("' does not match folder name");
                    Some(Err(m))
                } else {
                    Some(Ok(Skill { name, path: f.path.clone() }))
                }
            },
        },
    }
}

/// Reads the skills of a repo out of a listing of its `skills/` directory.
/// `repo_dir` is the repo as it is to be named in an error.
pub fn scan_skills(repo_dir: &str, has_skills_dir: bool, entries: &Vec<SkillFolder>) -> (r: Result<Vec<Skill>, String>)
    ensures
        match r {
            Ok(skills) => scan_skills_spec(repo_dir@, has_skills_dir, entries@) == Found::Ok(
                skills@.map_values(|s: Skill| s@),
            ),
            Err(e) => scan_skills_spec(repo_dir@, has_skills_dir, entries@) == Found::Err(e@),
        },
{
    if !has_skills_dir {
        let mut m = String::from_str("no skills/ directory found in ");
        m.append(repo_dir);
        return Err(m);
    }
    let mut skills: Vec<Skill> = Vec::new();
    assert(skills@.map_values(|s: Skill| s@) =~= Seq::<(Seq<char>, Seq<char>)>::empty());
    assert(entries@.take(0) =~= Seq::<SkillFolder>::empty());
    let n = entries.len();
    for i in 0..n
        invariant
            n == entries@.len(),
            has_skills_dir,
            scan_folders(entries@.take(i as int)) == Found::Ok(
                skills@.map_values(|s: Skill| s@),
            ),
    {
        assert(entries@.take(i + 1).drop_last() =~= entries@.take(i as int));
        assert(entries@.take(i + 1).last() == entries@[i as int]);
        let ghost outcome = folder_outcome(entries@[i as int]);
        match check_folder(&entries[i]) {
            None => {},
            Some(Ok(skill)) => {
                let ghost prev = skills@;
                let ghost v = skill@;
                skills.push(skill);
                assert(skills@.map_values(|s: Skill| s@) =~= prev.map_values(|s: Skill| s@).push(
                    v,
                ));
            },
            Some(Err(e)) => {
                assert(outcome matches Some(Err(m)) && m == e@);
                assert(scan_folders(entries@.take(i + 1)) == Found::Err(e@));
                proof {
                    lemma_scan_folders_err(entries@, i + 1);
                }
                return Err(e);
            },
        }
    }
    assert(entries@.take(n as int) =~= entries@);
    Ok(skills)
}


/// Each field that is set holds a non-empty value with no white space around it.
pub open spec fn nonempty_fields(f: Fields) -> bool {
    &&& (f.0 matches Some(n) ==> n.len() > 0 && text::trim(n) == n)
    &&& (f.1 matches Some(d) ==> d.len() > 0 && text::trim(d) == d)
}

proof fn lemma_scan_fields_nonempty(lines: Seq<Seq<char>>, fields: Fields)
    requires
        nonempty_fields(fields),
    ensures
        scan_fields(lines, fields) matches Some(f) ==> nonempty_fields(f),
    decreases lines.len(),
{
    if lines.len() > 0 && text::trim(lines[0]) != "---"@ {
        let line = lines[0];
        let k = text::char_pos(line, ':');
        text::lemma_trim_idempotent(line.skip(k + 1 as int));
        lemma_scan_fields_nonempty(lines.drop_first(), apply_line(line, fields));
    }
}

/// A frontmatter's name and description are never empty and carry no white
/// space around them.
pub proof fn lemma_frontmatter_fields_nonempty(content: Seq<char>)
    ensures
        frontmatter(content) matches Some((name, description)) ==> name.len() > 0
            && description.len() > 0 && text::trim(name) == name && text::trim(description)
            == description,
{
    let lines = text::split_lines(content);
    if lines.len() > 0 {
        lemma_scan_fields_nonempty(lines.drop_first(), (None, None));
    }
}

/// Every skill a scan finds has a valid name, and that name is the name of
/// the folder it was found in.
pub proof fn lemma_scanned_skills_valid(entries: Seq<SkillFolder>)
    ensures
        scan_folders(entries) matches Ok(found) ==> forall|k: int|
            0 <= k < found.len() ==> {
                &&& valid_name(#[trigger] found[k].0)
                &&& exists|i: int|
                    0 <= i < entries.len() && entries[i].is_dir && entries[i].folder@ == found[k].0
                        && entries[i].path@ == found[k].1
            },
    decreases entries.len(),
{
    if entries.len() > 0 {
        let rest = entries.drop_last();
        lemma_scanned_skills_valid(rest);
        if let Ok(found) = scan_folders(entries) {
            if let Ok(prev) = scan_folders(rest) {
                assert forall|k: int| 0 <= k < found.len() implies {
                    &&& valid_name(#[trigger] found[k].0)
                    &&& exists|i: int|
                        0 <= i < entries.len() && entries[i].is_dir && entries[i].folder@
                            == found[k].0 && entries[i].path@ == found[k].1
                } by {
                    if k < prev.len() {
                        let i = choose|i: int|
                            0 <= i < rest.len() && rest[i].is_dir && rest[i].folder@ == prev[k].0
                                && rest[i].path@ == prev[k].1;
                        assert(entries[i] == rest[i]);
                    } else {
                        assert(entries[entries.len() - 1] == entries.last());
                    }
                }
            }
        }
    }
}

/// One invalid skill folder fails the whole scan: no skill is reported then.
pub proof fn lemma_invalid_folder_fails_scan(entries: Seq<SkillFolder>, i: int)
    requires
        0 <= i < entries.len(),
        folder_outcome(entries[i]) matches Some(Err(_)),
    ensures
        scan_folders(entries) is Err,
    decreases entries.len(),
{
    if i == entries.len() - 1 {
        assert(entries.last() == entries[i]);
    } else {
        lemma_invalid_folder_fails_scan(entries.drop_last(), i);
    }
}


/// The `(folder, path)` of each directory among the entries, in listing order.
pub open spec fn skill_folders(entries: Seq<SkillFolder>) -> Seq<(Seq<char>, Seq<char>)>
    decreases entries.len(),
{
    if entries.len() == 0 {
        Seq::empty()
    } else {
        let rest = skill_folders(entries.drop_last());
        let last = entries.last();
        if last.is_dir {
            rest.push((last.folder@, last.path@))
        } else {
            rest
        }
    }
}

/// A directory that holds a skill: it has a `SKILL.md` that was read, whose
/// frontmatter names the folder itself, and that name is valid.
pub open spec fn good_skill_folder(f: SkillFolder) -> bool {
    &&& f.has_skill_md
    &&& f.content matches Ok(content)
    &&& frontmatter(content@) matches Some((name, _description))
    &&& name == f.folder@
    &&& valid_name(name)
}

/// A scan of `skills/` succeeds exactly when every directory in it holds a
/// skill, and then the skills found are the directories, one to one and in
/// listing order: none is missing, none comes twice, and loose files are
/// passed over.
pub proof fn lemma_skills_match_folders(entries: Seq<SkillFolder>)
    ensures
        scan_folders(entries) is Ok <==> forall|i: int|
            0 <= i < entries.len() && #[trigger] entries[i].is_dir ==> good_skill_folder(
                entries[i],
            ),
        scan_folders(entries) is Ok ==> scan_folders(entries) == Found::Ok(
            skill_folders(entries),
        ),
    decreases entries.len(),
{
    if entries.len() > 0 {
        let rest = entries.drop_last();
        let last = entries.last();
        lemma_skills_match_folders(rest);
        assert(forall|i: int| 0 <= i < rest.len() ==> rest[i] == entries[i]);
        assert(entries[entries.len() - 1] == last);
        if scan_folders(entries) is Ok {
            assert forall|i: int|
                0 <= i < entries.len() && #[trigger] entries[i].is_dir implies good_skill_folder(
                entries[i],
            ) by {
                if i < rest.len() {
                    assert(rest[i].is_dir);
                }
            }
        }
        if forall|i: int|
            0 <= i < entries.len() && #[trigger] entries[i].is_dir ==> good_skill_folder(
                entries[i],
            ) {
            assert forall|i: int|
                0 <= i < rest.len() && #[trigger] rest[i].is_dir implies good_skill_folder(
                rest[i],
            ) by {
                assert(entries[i].is_dir);
            }
            if last.is_dir {
                assert(entries[entries.len() - 1].is_dir);
            }
        }
    }
}


/// A frontmatter line `key: value` whose trimmed key is `key` and whose
/// trimmed value is not empty.
pub open spec fn field_line(line: Seq<char>, key: Seq<char>) -> bool {
    let k = text::char_pos(line, ':');
    k < line.len() && text::trim(line.take(k as int)) == key && text::trim(
        line.skip(k + 1 as int),
    ).len() > 0
}

/// The trimmed value of a `key: value` line.
pub open spec fn field_value(line: Seq<char>) -> Seq<char> {
    text::trim(line.skip(text::char_pos(line, ':') + 1 as int))
}

/// Line `k` is the first line after the opening one that trims to `---`.
pub open spec fn closing_line(lines: Seq<Seq<char>>, k: int) -> bool {
    &&& 1 <= k < lines.len()
    &&& text::trim(lines[k]) == "---"@
    &&& forall|j: int| 1 <= j < k ==> text::trim(#[trigger] lines[j]) != "---"@
}

/// Line `i`, before line `k`, is the last one there that sets `key`.
pub open spec fn last_field_line(lines: Seq<Seq<char>>, k: int, i: int, key: Seq<char>) -> bool {
    &&& 1 <= i < k
    &&& field_line(lines[i], key)
    &&& forall|j: int| i < j < k ==> !field_line(#[trigger] lines[j], key)
}

pub open spec fn field_key(which: bool) -> Seq<char> {
    if which {
        "name"@
    } else {
        "description"@
    }
}

pub open spec fn field_of(f: Fields, which: bool) -> Option<Seq<char>> {
    if which {
        f.0
    } else {
        f.1
    }
}

/// `apply_line` over the lines, first to last.
pub open spec fn fold_lines(lines: Seq<Seq<char>>, fields: Fields) -> Fields
    decreases lines.len(),
{
    if lines.len() == 0 {
        fields
    } else {
        apply_line(lines.last(), fold_lines(lines.drop_last(), fields))
    }
}

/// The index of the last line that sets `key`, if any.
pub open spec fn last_field_index(lines: Seq<Seq<char>>, key: Seq<char>) -> Option<int>
    decreases lines.len(),
{
    if lines.len() == 0 {
        None
    } else if field_line(lines.last(), key) {
        Some(lines.len() - 1)
    } else {
        last_field_index(lines.drop_last(), key)
    }
}

proof fn lemma_apply_line_field(line: Seq<char>, f: Fields, which: bool)
    ensures
        field_of(apply_line(line, f), which) == if field_line(line, field_key(which)) {
            Some(field_value(line))
        } else {
            field_of(f, which)
        },
{
    reveal_strlit("name");
    reveal_strlit("description");
    assert("name"@.len() != "description"@.len());
}

proof fn lemma_fold_lines_field(lines: Seq<Seq<char>>, f: Fields, which: bool)
    ensures
        field_of(fold_lines(lines, f), which) == match last_field_index(lines, field_key(which)) {
            Some(i) => Some(field_value(lines[i])),
            None => field_of(f, which),
        },
    decreases lines.len(),
{
    if lines.len() > 0 {
        let rest = lines.drop_last();
        lemma_fold_lines_field(rest, f, which);
        lemma_apply_line_field(lines.last(), fold_lines(rest, f), which);
        if let Some(i) = last_field_index(rest, field_key(which)) {
            lemma_last_field_index(rest, field_key(which));
            assert(rest[i] == lines[i]);
        }
    }
}

proof fn lemma_last_field_index(lines: Seq<Seq<char>>, key: Seq<char>)
    ensures
        match last_field_index(lines, key) {
            Some(i) => 0 <= i < lines.len() && field_line(lines[i], key) && forall|j: int|
                i < j < lines.len() ==> !field_line(#[trigger] lines[j], key),
            None => forall|j: int| 0 <= j < lines.len() ==> !field_line(#[trigger] lines[j], key),
        },
    decreases lines.len(),
{
    if lines.len() > 0 {
        let rest = lines.drop_last();
        lemma_last_field_index(rest, key);
        assert(forall|j: int| 0 <= j < rest.len() ==> rest[j] == lines[j]);
    }
}

proof fn lemma_fold_lines_cons(a: Seq<char>, rest: Seq<Seq<char>>, f: Fields)
    ensures
        fold_lines(seq![a] + rest, f) == fold_lines(rest, apply_line(a, f)),
    decreases rest.len(),
{
    let whole = seq![a] + rest;
    if rest.len() == 0 {
        assert(whole.drop_last() =~= Seq::<Seq<char>>::empty());
        assert(whole.last() == a);
        assert(fold_lines(whole.drop_last(), f) == f);
        assert(fold_lines(whole, f) == apply_line(a, f));
    } else {
        lemma_fold_lines_cons(a, rest.drop_last(), f);
        assert(whole.drop_last() =~= seq![a] + rest.drop_last());
        assert(whole.last() == rest.last());
        assert(fold_lines(whole, f) == apply_line(rest.last(), fold_lines(whole.drop_last(), f)));
    }
}

proof fn lemma_scan_fields_closed(lines: Seq<Seq<char>>, f: Fields, k: int)
    requires
        0 <= k < lines.len(),
        text::trim(lines[k]) == "---"@,
        forall|j: int| 0 <= j < k ==> text::trim(#[trigger] lines[j]) != "---"@,
    ensures
        scan_fields(lines, f) == Some(fold_lines(lines.take(k), f)),
    decreases k,
{
    if k > 0 {
        let rest = lines.drop_first();
        assert(text::trim(lines[0]) != "---"@);
        assert forall|j: int| 0 <= j < k - 1 implies text::trim(#[trigger] rest[j]) != "---"@ by {
            assert(rest[j] == lines[j + 1]);
        }
        lemma_scan_fields_closed(rest, apply_line(lines[0], f), k - 1);
        lemma_fold_lines_cons(lines[0], rest.take(k - 1), f);
        assert(seq![lines[0]] + rest.take(k - 1) =~= lines.take(k));
    } else {
        assert(lines.take(0) =~= Seq::<Seq<char>>::empty());
    }
}

proof fn lemma_scan_fields_unclosed(lines: Seq<Seq<char>>, f: Fields)
    requires
        forall|j: int| 0 <= j < lines.len() ==> text::trim(#[trigger] lines[j]) != "---"@,
    ensures
        scan_fields(lines, f) is None,
    decreases lines.len(),
{
    if lines.len() > 0 {
        let rest = lines.drop_first();
        assert(text::trim(lines[0]) != "---"@);
        assert forall|j: int| 0 <= j < rest.len() implies text::trim(#[trigger] rest[j]) != "---"@ by {
            assert(rest[j] == lines[j + 1]);
        }
        lemma_scan_fields_unclosed(rest, apply_line(lines[0], f));
    }
}

/// The frontmatter, in closed form. With `L` the lines of the content: there
/// is one exactly when `L[0]` trims to `---`, a first later line `L[k]` trims
/// to `---`, and lines strictly between them set both `name` and
/// `description`; each field then holds the value of the last line there that
/// sets it.
pub proof fn lemma_frontmatter_closed_form(content: Seq<char>)
    ensures
        ({
            let lines = text::split_lines(content);
            frontmatter(content) is Some <==> {
                &&& lines.len() > 0
                &&& text::trim(lines[0]) == "---"@
                &&& exists|k: int|
                    #![trigger closing_line(lines, k)]
                    closing_line(lines, k) && (exists|i: int|
                        1 <= i < k && field_line(#[trigger] lines[i], "name"@)) && (exists|i: int|
                        1 <= i < k && field_line(#[trigger] lines[i], "description"@))
            }
        }),
        ({
            let lines = text::split_lines(content);
            frontmatter(content) matches Some((name, description)) ==> exists|k: int, i: int, j: int|
                #![trigger last_field_line(lines, k, i, "name"@), last_field_line(lines, k, j, "description"@)]
                closing_line(lines, k) && last_field_line(lines, k, i, "name"@) && last_field_line(
                    lines,
                    k,
                    j,
                    "description"@,
                ) && name == field_value(lines[i]) && description == field_value(lines[j])
        }),
{
    let lines = text::split_lines(content);
    if lines.len() > 0 && text::trim(lines[0]) == "---"@ {
        let rest = lines.drop_first();
        assert(forall|j: int| 0 <= j < rest.len() ==> rest[j] == lines[j + 1]);
        if exists|k: int| closing_line(lines, k) {
            let k = choose|k: int| closing_line(lines, k);
            assert forall|j: int| 0 <= j < k - 1 implies text::trim(#[trigger] rest[j]) != "---"@ by {
                assert(rest[j] == lines[j + 1]);
            }
            lemma_scan_fields_closed(rest, (None, None), k - 1);
            let before = rest.take(k - 1);
            let f = fold_lines(before, (None, None));
            assert(forall|j: int| 0 <= j < before.len() ==> before[j] == lines[j + 1]);
            lemma_fold_lines_field(before, (None, None), true);
            lemma_fold_lines_field(before, (None, None), false);
            lemma_last_field_index(before, "name"@);
            lemma_last_field_index(before, "description"@);
            // a field set between the opening and closing lines
            if (exists|i: int| 1 <= i < k && field_line(#[trigger] lines[i], "name"@)) {
                let i = choose|i: int| 1 <= i < k && field_line(#[trigger] lines[i], "name"@);
                assert(field_line(before[i - 1], "name"@));
            }
            if (exists|i: int| 1 <= i < k && field_line(#[trigger] lines[i], "description"@)) {
                let i = choose|i: int| 1 <= i < k && field_line(#[trigger] lines[i], "description"@);
                assert(field_line(before[i - 1], "description"@));
            }
            if let (Some(a), Some(b)) = (last_field_index(before, "name"@), last_field_index(
                before,
                "description"@,
            )) {
                assert(field_line(lines[a + 1], "name"@));
                assert(field_line(lines[b + 1], "description"@));
                assert forall|j: int| a + 1 < j < k implies !field_line(#[trigger] lines[j], "name"@) by {
                    assert(lines[j] == before[j - 1]);
                }
                assert forall|j: int| b + 1 < j < k implies !field_line(
                    #[trigger] lines[j],
                    "description"@,
                ) by {
                    assert(lines[j] == before[j - 1]);
                }
                assert(last_field_line(lines, k, a + 1, "name"@));
                assert(last_field_line(lines, k, b + 1, "description"@));
            }
            assert forall|k2: int| closing_line(lines, k2) implies k2 == k by {
                if k2 < k {
                    assert(text::trim(lines[k2]) != "---"@);
                } else if k < k2 {
                    assert(text::trim(lines[k]) != "---"@);
                }
            }
        } else {
            assert forall|j: int| 0 <= j < rest.len() implies text::trim(#[trigger] rest[j]) != "---"@ by {
                if text::trim(rest[j]) == "---"@ {
                    // the first closing line would exist
                    lemma_first_closing(lines, j + 1);
                }
            }
            lemma_scan_fields_unclosed(rest, (None, None));
        }
    }
}

/// Where some later line trims to `---`, a first one does.
proof fn lemma_first_closing(lines: Seq<Seq<char>>, k: int)
    requires
        1 <= k < lines.len(),
        text::trim(lines[k]) == "---"@,
    ensures
        exists|m: int| closing_line(lines, m),
    decreases k,
{
    if forall|j: int| 1 <= j < k ==> text::trim(#[trigger] lines[j]) != "---"@ {
        assert(closing_line(lines, k));
    } else {
        let j = choose|j: int| 1 <= j < k && text::trim(#[trigger] lines[j]) == "---"@;
        lemma_first_closing(lines, j);
    }
}


/// Which names are valid, spelled out: a name is valid exactly when it is
/// non-empty, every character is a lowercase ASCII letter, an ASCII digit or
/// `-`, it neither starts nor ends with `-`, and no two `-` stand next to each
/// other. There is no limit on its length.
pub proof fn lemma_valid_name_characterized(s: Seq<char>)
    ensures
        valid_name(s) <==> {
            &&& s.len() > 0
            &&& forall|i: int|
                0 <= i < s.len() ==> ('a' <= #[trigger] s[i] && s[i] <= 'z') || ('0' <= s[i] && s[i]
                    <= '9') || s[i] == '-'
            &&& s[0] != '-'
            &&& s[s.len() - 1] != '-'
            &&& forall|i: int| 0 <= i < s.len() - 1 ==> !(#[trigger] s[i] == '-' && s[i + 1] == '-')
        },
{
}

/// A valid name followed by a lowercase letter or a digit is valid: names may
/// grow without bound.
pub proof fn lemma_valid_name_extend(s: Seq<char>, c: char)
    requires
        valid_name(s),
        ('a' <= c && c <= 'z') || ('0' <= c && c <= '9'),
    ensures
        valid_name(s.push(c)),
{
    let t = s.push(c);
    assert forall|i: int| 0 <= i < t.len() implies is_name_char(#[trigger] t[i]) by {
        if i < s.len() {
            assert(t[i] == s[i]);
        }
    }
    assert forall|i: int| 0 <= i < t.len() - 1 implies !(#[trigger] t[i] == '-' && t[i + 1] == '-') by {
        if i < s.len() - 1 {
            assert(t[i] == s[i] && t[i + 1] == s[i + 1]);
        }
    }
}

/// Two valid names joined by one `-` make a valid name, as
/// `test-driven-development` is made of `test`, `driven` and `development`.
pub proof fn lemma_valid_name_join(a: Seq<char>, b: Seq<char>)
    requires
        valid_name(a),
        valid_name(b),
    ensures
        valid_name(a + seq!['-'] + b),
{
    let t = a + seq!['-'] + b;
    assert forall|i: int| 0 <= i < t.len() implies is_name_char(#[trigger] t[i]) by {
        if i < a.len() {
            assert(t[i] == a[i]);
        } else if i > a.len() {
            assert(t[i] == b[i - a.len() - 1]);
        }
    }
    assert forall|i: int| 0 <= i < t.len() - 1 implies !(#[trigger] t[i] == '-' && t[i + 1] == '-') by {
        if i < a.len() - 1 {
            assert(t[i] == a[i] && t[i + 1] == a[i + 1]);
        } else if i == a.len() - 1 {
            assert(t[i] == a[a.len() - 1]);
        } else if i == a.len() {
            assert(t[i + 1] == b[0]);
        } else {
            assert(t[i] == b[i - a.len() - 1] && t[i + 1] == b[i - a.len()]);
        }
    }
    assert(t[0] == a[0]);
    assert(t.last() == b.last());
}

} // verus!
