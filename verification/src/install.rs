use vstd::prelude::*;

use crate::agents::Agent;
use crate::skills::{Found, Skill};
use crate::target;
use crate::text;

verus! {

/// Shallow-clones a git repository: `url` into the directory `dest`.
pub trait Git {
    fn clone_shallow(&self, url: &str, dest: &str) -> Result<(), String>;
}

/// What an install did: the skills and agents it installed and those it left
/// alone because they already existed.
#[derive(Debug)]
pub struct Report {
    pub installed: Vec<String>,
    pub skipped: Vec<String>,
    pub agents_installed: Vec<String>,
    pub agents_skipped: Vec<String>,
}

pub struct ReportView {
    pub installed: Seq<Seq<char>>,
    pub skipped: Seq<Seq<char>>,
    pub agents_installed: Seq<Seq<char>>,
    pub agents_skipped: Seq<Seq<char>>,
}

pub open spec fn names_view(v: Seq<String>) -> Seq<Seq<char>> {
    v.map_values(|s: String| s@)
}

impl View for Report {
    type V = ReportView;

    open spec fn view(&self) -> ReportView {
        ReportView {
            installed: names_view(self.installed@),
            skipped: names_view(self.skipped@),
            agents_installed: names_view(self.agents_installed@),
            agents_skipped: names_view(self.agents_skipped@),
        }
    }
}

pub open spec fn empty_report() -> ReportView {
    ReportView {
        installed: Seq::empty(),
        skipped: Seq::empty(),
        agents_installed: Seq::empty(),
        agents_skipped: Seq::empty(),
    }
}

impl Report {
    pub fn new() -> (r: Report)
        ensures
            r@ == empty_report(),
    {
        let r = Report {
            installed: Vec::new(),
            skipped: Vec::new(),
            agents_installed: Vec::new(),
            agents_skipped: Vec::new(),
        };
        assert(r@.installed =~= Seq::<Seq<char>>::empty());
        assert(r@.skipped =~= Seq::<Seq<char>>::empty());
        assert(r@.agents_installed =~= Seq::<Seq<char>>::empty());
        assert(r@.agents_skipped =~= Seq::<Seq<char>>::empty());
        r
    }

    /// Whether the install found nothing at all to install or skip.
    pub fn is_empty(&self) -> (r: bool)
        ensures
            r == (self@.installed.len() == 0 && self@.skipped.len() == 0
                && self@.agents_installed.len() == 0 && self@.agents_skipped.len() == 0),
    {
        self.installed.len() == 0 && self.skipped.len() == 0 && self.agents_installed.len() == 0
            && self.agents_skipped.len() == 0
    }
}

impl Default for Report {
    fn default() -> (r: Report)
        ensures
            r@ == empty_report(),
    {
        Report::new()
    }
}


/// Where an install stands: the step it has asked for and waits to hear of.
#[derive(Debug, Clone, Copy, PartialEq, Eq, Structural)]
pub enum Phase {
    CheckingRepo,
    CreatingCloneDir,
    Cloning,
    Scanning,
    CreatingDest,
    Checking(usize),
    Staging(usize),
    Clearing(usize),
    Renaming(usize),
    Finished(Option<usize>, bool),
}

/// What the caller is to do next. Items are numbered skills first, then agents.
#[derive(Debug, Clone, Copy, PartialEq, Eq, Structural)]
pub enum Step {
    /// Find out whether the repo is a local directory.
    CheckRepo,
    /// Create a fresh temporary directory to clone into.
    CreateCloneDir,
    /// Shallow-clone the repo into that directory.
    Clone,
    /// Scan the source (the local directory or the clone) for skills and agents.
    Scan,
    /// Create the directory that skills are installed into.
    CreateDest,
    /// Find out whether the item's target already exists.
    CheckTarget(usize),
    /// Clear the item's staging place and copy the item there.
    Stage(usize),
    /// Remove the item's existing target, where there is one.
    ClearTarget(usize),
    /// Move the staged copy onto the item's target.
    Rename(usize),
    /// Stop: first remove the staging place of the item given, and the clone
    /// where `remove_clone` holds.
    Finish { remove_staging: Option<usize>, remove_clone: bool },
}

/// What the caller found when it did the step asked for.
pub enum Event {
    RepoIsDir(bool),
    CloneDirCreated(String),
    Succeeded,
    Failed(String),
    /// The skills, and the agents, that scanning the source found, or the
    /// error that scanning gave.
    Scanned(Result<Vec<Skill>, String>, Result<Vec<Agent>, String>),
    TargetExists(bool),
}

pub enum EventView {
    RepoIsDir(bool),
    CloneDirCreated(Seq<char>),
    Succeeded,
    Failed(Seq<char>),
    Scanned(Found, Found),
    TargetExists(bool),
}

pub open spec fn skills_found(r: Result<Vec<Skill>, String>) -> Found {
    match r {
        Ok(v) => Ok(v@.map_values(|s: Skill| s@)),
        Err(e) => Err(e@),
    }
}

pub open spec fn agents_found(r: Result<Vec<Agent>, String>) -> Found {
    match r {
        Ok(v) => Ok(v@.map_values(|a: Agent| a@)),
        Err(e) => Err(e@),
    }
}

/// The names of `(name, path)` items.
pub open spec fn item_names(items: Seq<(Seq<char>, Seq<char>)>) -> Seq<Seq<char>> {
    items.map_values(|p: (Seq<char>, Seq<char>)| p.0)
}

/// The paths of `(name, path)` items.
pub open spec fn item_sources(items: Seq<(Seq<char>, Seq<char>)>) -> Seq<Seq<char>> {
    items.map_values(|p: (Seq<char>, Seq<char>)| p.1)
}

impl View for Event {
    type V = EventView;

    open spec fn view(&self) -> EventView {
        match self {
            Event::RepoIsDir(b) => EventView::RepoIsDir(*b),
            Event::CloneDirCreated(p) => EventView::CloneDirCreated(p@),
            Event::Succeeded => EventView::Succeeded,
            Event::Failed(m) => EventView::Failed(m@),
            Event::Scanned(a, b) => EventView::Scanned(skills_found(*a), agents_found(*b)),
            Event::TargetExists(b) => EventView::TargetExists(*b),
        }
    }
}

/// The state of an install.
pub struct InstallState {
    pub phase: Phase,
    pub force: bool,
    /// The repo as the user named it.
    pub repo: Seq<char>,
    /// The temporary directory holding a clone of the repo, once created.
    pub clone_dir: Option<Seq<char>>,
    /// The names of the items found: skills first, then agents.
    pub names: Seq<Seq<char>>,
    /// Where each item is copied from, as the scan found it.
    pub sources: Seq<Seq<char>>,
    /// How many of `names` are skills.
    pub skill_count: nat,
    pub report: ReportView,
    /// The error that ended the install, if one did.
    pub failure: Option<Seq<char>>,
}

/// The step that the state asks for.
pub open spec fn step_of(s: InstallState) -> Step {
    match s.phase {
        Phase::CheckingRepo => Step::CheckRepo,
        Phase::CreatingCloneDir => Step::CreateCloneDir,
        Phase::Cloning => Step::Clone,
        Phase::Scanning => Step::Scan,
        Phase::CreatingDest => Step::CreateDest,
        Phase::Checking(i) => Step::CheckTarget(i),
        Phase::Staging(i) => Step::Stage(i),
        Phase::Clearing(i) => Step::ClearTarget(i),
        Phase::Renaming(i) => Step::Rename(i),
        Phase::Finished(staging, clone) => Step::Finish { remove_staging: staging, remove_clone: clone },
    }
}

pub open spec fn with_phase(s: InstallState, phase: Phase) -> InstallState {
    InstallState { phase, ..s }
}

/// The install ends with the error `m`; the staging place of `staging` and
/// the clone, where there is one, are to be removed.
pub open spec fn fail(s: InstallState, m: Seq<char>, staging: Option<usize>) -> InstallState {
    InstallState {
        phase: Phase::Finished(staging, s.clone_dir is Some),
        failure: Some(m),
        ..s
    }
}

/// A scan error as the user is to see it: naming the repo, not the clone.
pub open spec fn relabel(s: InstallState, m: Seq<char>) -> Seq<char> {
    match s.clone_dir {
        Some(dir) => text::replace(m, dir, s.repo),
        None => m,
    }
}

/// Go on with item `i`, or finish where there is none.
pub open spec fn begin_item(s: InstallState, i: int) -> InstallState {
    if i < s.names.len() {
        with_phase(s, Phase::Checking(i as usize))
    } else {
        with_phase(s, Phase::Finished(None, s.clone_dir is Some))
    }
}

/// Item `i` recorded as installed or as skipped.
pub open spec fn record(s: InstallState, i: int, installed: bool) -> InstallState {
    let name = s.names[i];
    let r = s.report;
    let report = if i < s.skill_count {
        if installed {
            ReportView { installed: r.installed.push(name), ..r }
        } else {
            ReportView { skipped: r.skipped.push(name), ..r }
        }
    } else {
        if installed {
            ReportView { agents_installed: r.agents_installed.push(name), ..r }
        } else {
            ReportView { agents_skipped: r.agents_skipped.push(name), ..r }
        }
    };
    InstallState { report, ..s }
}

/// How an install moves on when the caller reports `e`. An event that does not
/// answer the step asked for changes nothing, so the same step is asked again.
pub open spec fn next(s: InstallState, e: EventView) -> InstallState {
    match s.phase {
        Phase::CheckingRepo => match e {
            EventView::RepoIsDir(true) => with_phase(s, Phase::Scanning),
            EventView::RepoIsDir(false) => with_phase(s, Phase::CreatingCloneDir),
            _ => s,
        },
        Phase::CreatingCloneDir => match e {
            EventView::CloneDirCreated(dir) => InstallState {
                phase: Phase::Cloning,
                clone_dir: Some(dir),
                ..s
            },
            EventView::Failed(m) => fail(s, m, None),
            _ => s,
        },
        Phase::Cloning => match e {
            EventView::Succeeded => with_phase(s, Phase::Scanning),
            EventView::Failed(m) => fail(s, m, None),
            _ => s,
        },
        Phase::Scanning => match e {
            EventView::Scanned(skills, agents) => match (skills, agents) {
                (Err(m), _) => fail(s, relabel(s, m), None),
                (Ok(_), Err(m)) => fail(s, relabel(s, m), None),
                (Ok(sk), Ok(ag)) => InstallState {
                    phase: Phase::CreatingDest,
                    names: item_names(sk) + item_names(ag),
                    sources: item_sources(sk) + item_sources(ag),
                    skill_count: sk.len(),
                    ..s
                },
            },
            _ => s,
        },
        Phase::CreatingDest => match e {
            EventView::Succeeded => begin_item(s, 0),
            EventView::Failed(m) => fail(s, m, None),
            _ => s,
        },
        Phase::Checking(i) => match e {
            EventView::TargetExists(exists) => if exists && !s.force {
                begin_item(record(s, i as int, false), i + 1)
            } else {
                with_phase(s, Phase::Staging(i))
            },
            _ => s,
        },
        Phase::Staging(i) => match e {
            EventView::Succeeded => with_phase(s, Phase::Clearing(i)),
            EventView::Failed(m) => fail(s, m, Some(i)),
            _ => s,
        },
        Phase::Clearing(i) => match e {
            EventView::Succeeded => with_phase(s, Phase::Renaming(i)),
            EventView::Failed(m) => fail(s, m, Some(i)),
            _ => s,
        },
        Phase::Renaming(i) => match e {
            EventView::Succeeded => begin_item(record(s, i as int, true), i + 1),
            EventView::Failed(m) => fail(s, m, Some(i)),
            _ => s,
        },
        Phase::Finished(_, _) => s,
    }
}

/// The state of a fresh install of `repo`.
pub open spec fn initial(repo: Seq<char>, force: bool) -> InstallState {
    InstallState {
        phase: Phase::CheckingRepo,
        force,
        repo,
        clone_dir: None,
        names: Seq::empty(),
        sources: Seq::empty(),
        skill_count: 0,
        report: empty_report(),
        failure: None,
    }
}

pub open spec fn pair_names(v: Seq<(String, String)>) -> Seq<Seq<char>> {
    v.map_values(|p: (String, String)| p.0@)
}

pub open spec fn pair_sources(v: Seq<(String, String)>) -> Seq<Seq<char>> {
    v.map_values(|p: (String, String)| p.1@)
}

pub open spec fn opt_string_view(o: Option<String>) -> Option<Seq<char>> {
    match o {
        Some(s) => Some(s@),
        None => None,
    }
}

/// The decisions of an install, apart from the file system and git work that
/// the caller does for it: it asks for one step at a time and is told what
/// came of it.
pub struct Installer {
    phase: Phase,
    force: bool,
    repo: String,
    clone_dir: Option<String>,
    /// The `(name, source)` of each item: skills first, then agents.
    items: Vec<(String, String)>,
    skill_count: usize,
    report: Report,
    failure: Option<String>,
}

impl View for Installer {
    type V = InstallState;

    closed spec fn view(&self) -> InstallState {
        InstallState {
            phase: self.phase,
            force: self.force,
            repo: self.repo@,
            clone_dir: opt_string_view(self.clone_dir),
            names: pair_names(self.items@),
            sources: pair_sources(self.items@),
            skill_count: self.skill_count as nat,
            report: self.report@,
            failure: opt_string_view(self.failure),
        }
    }
}

/// Indices that steps name stay within the items found.
pub open spec fn well_formed(s: InstallState) -> bool {
    &&& s.skill_count <= s.names.len() <= usize::MAX
    &&& s.sources.len() == s.names.len()
    &&& match s.phase {
        Phase::Checking(i) => i < s.names.len(),
        Phase::Staging(i) => i < s.names.len(),
        Phase::Clearing(i) => i < s.names.len(),
        Phase::Renaming(i) => i < s.names.len(),
        Phase::Finished(Some(i), _) => i < s.names.len(),
        _ => true,
    }
}


fn push_skills(items: &mut Vec<(String, String)>, skills: &Vec<Skill>)
    ensures
        pair_names(final(items)@) == pair_names(old(items)@) + item_names(
            skills@.map_values(|s: Skill| s@),
        ),
        pair_sources(final(items)@) == pair_sources(old(items)@) + item_sources(
            skills@.map_values(|s: Skill| s@),
        ),
{
    let ghost start = items@;
    let ghost found = skills@.map_values(|s: Skill| s@);
    for i in 0..skills.len()
        invariant
            found == skills@.map_values(|s: Skill| s@),
            pair_names(items@) == pair_names(start) + item_names(found.take(i as int)),
            pair_sources(items@) == pair_sources(start) + item_sources(found.take(i as int)),
    {
        let ghost prev = items@;
        let pair = (skills[i].name.clone(), skills[i].path.clone());
        items.push(pair);
        assert(found.take(i + 1) =~= found.take(i as int).push(found[i as int]));
        assert(pair_names(items@) =~= pair_names(prev).push(found[i as int].0));
        assert(pair_sources(items@) =~= pair_sources(prev).push(found[i as int].1));
        assert(item_names(found.take(i + 1)) =~= item_names(found.take(i as int)).push(
            found[i as int].0,
        ));
        assert(item_sources(found.take(i + 1)) =~= item_sources(found.take(i as int)).push(
            found[i as int].1,
        ));
    }
    assert(found.take(skills@.len() as int) =~= found);
}

fn push_agents(items: &mut Vec<(String, String)>, agents: &Vec<Agent>)
    ensures
        pair_names(final(items)@) == pair_names(old(items)@) + item_names(
            agents@.map_values(|a: Agent| a@),
        ),
        pair_sources(final(items)@) == pair_sources(old(items)@) + item_sources(
            agents@.map_values(|a: Agent| a@),
        ),
{
    let ghost start = items@;
    let ghost found = agents@.map_values(|a: Agent| a@);
    for i in 0..agents.len()
        invariant
            found == agents@.map_values(|a: Agent| a@),
            pair_names(items@) == pair_names(start) + item_names(found.take(i as int)),
            pair_sources(items@) == pair_sources(start) + item_sources(found.take(i as int)),
    {
        let ghost prev = items@;
        let pair = (agents[i].name.clone(), agents[i].path.clone());
        items.push(pair);
        assert(found.take(i + 1) =~= found.take(i as int).push(found[i as int]));
        assert(pair_names(items@) =~= pair_names(prev).push(found[i as int].0));
        assert(pair_sources(items@) =~= pair_sources(prev).push(found[i as int].1));
        assert(item_names(found.take(i + 1)) =~= item_names(found.take(i as int)).push(
            found[i as int].0,
        ));
        assert(item_sources(found.take(i + 1)) =~= item_sources(found.take(i as int)).push(
            found[i as int].1,
        ));
    }
    assert(found.take(agents@.len() as int) =~= found);
}

impl Installer {
    #[verifier::type_invariant]
    closed spec fn inv(self) -> bool {
        &&& well_formed(self@)
    }

    /// A fresh install of `repo`; its first step is `CheckRepo`.
    pub fn new(repo: &str, force: bool) -> (r: Installer)
        ensures
            r@ == initial(repo@, force),
    {
        let r = Installer {
            phase: Phase::CheckingRepo,
            force,
            repo: String::from_str(repo),
            clone_dir: None,
            items: Vec::new(),
            skill_count: 0,
            report: Report::new(),
            failure: None,
        };
        assert(pair_names(r.items@) =~= Seq::<Seq<char>>::empty());
        assert(pair_sources(r.items@) =~= Seq::<Seq<char>>::empty());
        r
    }

    /// The step the install asks for now.
    pub fn current_step(&self) -> (r: Step)
        ensures
            r == step_of(self@),
            self@.phase matches Phase::Checking(i) ==> r == Step::CheckTarget(i),
            self@.phase matches Phase::Staging(i) ==> r == Step::Stage(i),
            self@.phase matches Phase::Clearing(i) ==> r == Step::ClearTarget(i),
            self@.phase matches Phase::Renaming(i) ==> r == Step::Rename(i),
    {
        proof {
            lemma_steps_name_their_item(self@);
        }
        match self.phase {
            Phase::CheckingRepo => Step::CheckRepo,
            Phase::CreatingCloneDir => Step::CreateCloneDir,
            Phase::Cloning => Step::Clone,
            Phase::Scanning => Step::Scan,
            Phase::CreatingDest => Step::CreateDest,
            Phase::Checking(i) => Step::CheckTarget(i),
            Phase::Staging(i) => Step::Stage(i),
            Phase::Clearing(i) => Step::ClearTarget(i),
            Phase::Renaming(i) => Step::Rename(i),
            Phase::Finished(staging, clone) => Step::Finish {
                remove_staging: staging,
                remove_clone: clone,
            },
        }
    }

    /// The name of item `i`, where it is copied from (the path the scan found
    /// it at), and whether it is an agent (else it is a skill).
    pub fn item(&self, i: usize) -> (r: Option<(String, String, bool)>)
        ensures
            match r {
                Some((name, source, is_agent)) => i < self@.names.len() && name@
                    == self@.names[i as int] && source@ == self@.sources[i as int] && is_agent
                    == (i >= self@.skill_count),
                None => i >= self@.names.len(),
            },
    {
        proof { use_type_invariant(self); }
        if i < self.items.len() {
            Some((self.items[i].0.clone(), self.items[i].1.clone(), i >= self.skill_count))
        } else {
            None
        }
    }

    /// The temporary directory that holds the clone, once one was created.
    pub fn clone_dir(&self) -> (r: Option<String>)
        ensures
            opt_string_view(r) == self@.clone_dir,
    {
        self.clone_dir.clone()
    }

    /// What the install came to: the error that ended it, or its report.
    pub fn into_result(self) -> (r: Result<Report, String>)
        ensures
            match r {
                Ok(report) => self@.failure is None && report@ == self@.report,
                Err(m) => self@.failure == Some(m@),
            },
    {
        match self.failure {
            Some(m) => Err(m),
            None => Ok(self.report),
        }
    }

    fn fail_with(&mut self, m: String, staging: Option<usize>)
        requires
            match staging {
                Some(i) => i < old(self)@.names.len(),
                None => true,
            },
        ensures
            final(self)@ == fail(old(self)@, m@, staging),
    {
        proof { use_type_invariant(&*self); }
        self.failure = Some(m);
        self.phase = Phase::Finished(staging, self.clone_dir.is_some());
    }

    fn begin(&mut self, i: usize)
        requires
            i <= old(self)@.names.len(),
        ensures
            final(self)@ == begin_item(old(self)@, i as int),
    {
        proof { use_type_invariant(&*self); }
        if i < self.items.len() {
            self.phase = Phase::Checking(i);
        } else {
            self.phase = Phase::Finished(None, self.clone_dir.is_some());
        }
    }

    fn record_item(&mut self, i: usize, installed: bool)
        requires
            i < old(self)@.names.len(),
        ensures
            final(self)@ == record(old(self)@, i as int, installed),
    {
        proof { use_type_invariant(&*self); }
        let name = self.items[i].0.clone();
        let mut report = Report::new();
        std::mem::swap(&mut report, &mut self.report);
        if i < self.skill_count {
            if installed {
                report.installed.push(name);
            } else {
                report.skipped.push(name);
            }
        } else {
            if installed {
                report.agents_installed.push(name);
            } else {
                report.agents_skipped.push(name);
            }
        }
        self.report = report;
        assert(self.report@.installed =~= record(old(self)@, i as int, installed).report.installed);
        assert(self.report@.skipped =~= record(old(self)@, i as int, installed).report.skipped);
        assert(self.report@.agents_installed =~= record(
            old(self)@,
            i as int,
            installed,
        ).report.agents_installed);
        assert(self.report@.agents_skipped =~= record(
            old(self)@,
            i as int,
            installed,
        ).report.agents_skipped);
    }

    fn relabel_error(&self, m: String) -> (r: String)
        ensures
            r@ == relabel(self@, m@),
    {
        match &self.clone_dir {
            Some(dir) => text::replace_all(m.as_str(), dir.as_str(), self.repo.as_str()),
            None => m,
        }
    }

    /// Moves the install on by what came of the step it asked for, and gives
    /// the step it asks for next.
    pub fn step(&mut self, event: Event) -> (r: Step)
        ensures
            final(self)@ == next(old(self)@, event@),
            r == step_of(final(self)@),
            consistent(old(self)@) ==> consistent(final(self)@),
    {
        proof { use_type_invariant(&*self); }
        let ghost before = self@;
        let ghost ev = event@;
        match (self.phase, event) {
            (Phase::CheckingRepo, Event::RepoIsDir(is_dir)) => {
                self.phase = if is_dir {
                    Phase::Scanning
                } else {
                    Phase::CreatingCloneDir
                };
            },
            (Phase::CreatingCloneDir, Event::CloneDirCreated(dir)) => {
                self.clone_dir = Some(dir);
                self.phase = Phase::Cloning;
            },
            (Phase::CreatingCloneDir, Event::Failed(m)) => {
                self.fail_with(m, None);
            },
            (Phase::Cloning, Event::Succeeded) => {
                self.phase = Phase::Scanning;
            },
            (Phase::Cloning, Event::Failed(m)) => {
                self.fail_with(m, None);
            },
            (Phase::Scanning, Event::Scanned(skills, agents)) => {
                match (skills, agents) {
                    (Err(m), _) => {
                        let m = self.relabel_error(m);
                        self.fail_with(m, None);
                    },
                    (Ok(_), Err(m)) => {
                        let m = self.relabel_error(m);
                        self.fail_with(m, None);
                    },
                    (Ok(sk), Ok(ag)) => {
                        let mut items: Vec<(String, String)> = Vec::new();
                        assert(pair_names(items@) =~= Seq::<Seq<char>>::empty());
                        assert(pair_sources(items@) =~= Seq::<Seq<char>>::empty());
                        push_skills(&mut items, &sk);
                        let count = items.len();
                        let ghost mid = items@;
                        push_agents(&mut items, &ag);
                        let total = items.len();
                        assert(pair_names(mid).len() == count);
                        assert(pair_names(items@).len() == total);
                        assert(count <= total);
                        self.skill_count = 0;
                        self.items = items;
                        self.skill_count = count;
                        self.phase = Phase::CreatingDest;
                        assert(fits(ev));
                    },
                }
            },
            (Phase::CreatingDest, Event::Succeeded) => {
                self.begin(0);
            },
            (Phase::CreatingDest, Event::Failed(m)) => {
                self.fail_with(m, None);
            },
            (Phase::Checking(i), Event::TargetExists(exists)) => {
                if exists && !self.force {
                    self.record_item(i, false);
                    self.begin(i + 1);
                } else {
                    self.phase = Phase::Staging(i);
                }
            },
            (Phase::Staging(i), Event::Succeeded) => {
                self.phase = Phase::Clearing(i);
            },
            (Phase::Staging(i), Event::Failed(m)) => {
                self.fail_with(m, Some(i));
            },
            (Phase::Clearing(i), Event::Succeeded) => {
                self.phase = Phase::Renaming(i);
            },
            (Phase::Clearing(i), Event::Failed(m)) => {
                self.fail_with(m, Some(i));
            },
            (Phase::Renaming(i), Event::Succeeded) => {
                self.record_item(i, true);
                self.begin(i + 1);
            },
            (Phase::Renaming(i), Event::Failed(m)) => {
                self.fail_with(m, Some(i));
            },
            _ => {},
        }
        proof {
            if consistent(before) {
                lemma_next_consistent(before, ev);
            }
        }
        self.current_step()
    }
}


/// How many items the report records, installed or skipped.
pub open spec fn recorded(r: ReportView) -> nat {
    r.installed.len() + r.skipped.len() + r.agents_installed.len() + r.agents_skipped.len()
}

/// What holds of every state an install reaches: steps name items that
/// exist, the items before the one at hand are each recorded once, skills
/// are recorded as skills and agents as agents, and a finished install
/// removes its clone exactly when it made one.
pub open spec fn consistent(s: InstallState) -> bool {
    &&& well_formed(s)
    &&& match s.phase {
        Phase::Checking(i) => recorded(s.report) == i,
        Phase::Staging(i) => recorded(s.report) == i,
        Phase::Clearing(i) => recorded(s.report) == i,
        Phase::Renaming(i) => recorded(s.report) == i,
        Phase::Finished(_, clone) => recorded(s.report) <= s.names.len() && clone == (
        s.clone_dir is Some),
        _ => recorded(s.report) == 0,
    }
    &&& forall|k: int|
        0 <= k < s.report.installed.len() ==> s.names.take(s.skill_count as int).contains(
            #[trigger] s.report.installed[k],
        )
    &&& forall|k: int|
        0 <= k < s.report.skipped.len() ==> s.names.take(s.skill_count as int).contains(
            #[trigger] s.report.skipped[k],
        )
    &&& forall|k: int|
        0 <= k < s.report.agents_installed.len() ==> s.names.skip(s.skill_count as int).contains(
            #[trigger] s.report.agents_installed[k],
        )
    &&& forall|k: int|
        0 <= k < s.report.agents_skipped.len() ==> s.names.skip(s.skill_count as int).contains(
            #[trigger] s.report.agents_skipped[k],
        )
}

proof fn lemma_record_consistent(s: InstallState, i: int, installed: bool)
    requires
        consistent(s),
        0 <= i < s.names.len(),
    ensures
        recorded(record(s, i, installed).report) == recorded(s.report) + 1,
        forall|k: int|
            0 <= k < record(s, i, installed).report.installed.len() ==> s.names.take(
                s.skill_count as int,
            ).contains(#[trigger] record(s, i, installed).report.installed[k]),
        forall|k: int|
            0 <= k < record(s, i, installed).report.skipped.len() ==> s.names.take(
                s.skill_count as int,
            ).contains(#[trigger] record(s, i, installed).report.skipped[k]),
        forall|k: int|
            0 <= k < record(s, i, installed).report.agents_installed.len() ==> s.names.skip(
                s.skill_count as int,
            ).contains(#[trigger] record(s, i, installed).report.agents_installed[k]),
        forall|k: int|
            0 <= k < record(s, i, installed).report.agents_skipped.len() ==> s.names.skip(
                s.skill_count as int,
            ).contains(#[trigger] record(s, i, installed).report.agents_skipped[k]),
{
    let c = s.skill_count as int;
    if i < c {
        assert(s.names.take(c)[i] == s.names[i]);
    } else {
        assert(s.names.skip(c)[i - c] == s.names[i]);
    }
}

/// The names a scan reports fit in memory together.
pub open spec fn fits(e: EventView) -> bool {
    e matches EventView::Scanned(Ok(skills), Ok(agents)) ==> skills.len() + agents.len()
        <= usize::MAX
}

/// Every step keeps an install consistent.
pub proof fn lemma_next_consistent(s: InstallState, e: EventView)
    requires
        consistent(s),
        s.phase == Phase::Scanning ==> fits(e),
    ensures
        consistent(next(s, e)),
{
    match s.phase {
        Phase::Checking(i) => {
            if let EventView::TargetExists(exists) = e {
                if exists && !s.force {
                    lemma_record_consistent(s, i as int, false);
                }
            }
        },
        Phase::Renaming(i) => {
            if let EventView::Succeeded = e {
                lemma_record_consistent(s, i as int, true);
            }
        },
        _ => {},
    }
}

pub proof fn lemma_initial_consistent(repo: Seq<char>, force: bool)
    ensures
        consistent(initial(repo, force)),
{
}

/// An item whose target exists is skipped, and recorded as skipped, unless
/// the install is forced; otherwise it is staged for installing.
pub proof fn lemma_skip_unless_forced(s: InstallState, i: usize, exists: bool)
    requires
        consistent(s),
        s.phase == Phase::Checking(i),
    ensures
        exists && !s.force ==> {
            &&& next(s, EventView::TargetExists(exists)).phase != Phase::Staging(i)
            &&& next(s, EventView::TargetExists(exists)).report == record(s, i as int, false).report
        },
        !(exists && !s.force) ==> next(s, EventView::TargetExists(exists)) == with_phase(
            s,
            Phase::Staging(i),
        ),
{
}

/// An item's existing target is only removed once a copy of the item has been
/// staged: a failed copy leaves the existing target as it was.
pub proof fn lemma_target_cleared_only_after_staging(s: InstallState, e: EventView, i: usize)
    requires
        next(s, e).phase == Phase::Clearing(i),
    ensures
        s.phase == Phase::Clearing(i) || (s.phase == Phase::Staging(i) && e == EventView::Succeeded),
{
}

/// An item is recorded as installed only when its staged copy was moved onto
/// its target.
pub proof fn lemma_installed_only_after_rename(s: InstallState, e: EventView)
    requires
        next(s, e).report.installed.len() > s.report.installed.len()
            || next(s, e).report.agents_installed.len() > s.report.agents_installed.len(),
    ensures
        s.phase is Renaming && e == EventView::Succeeded,
{
}

/// Once the repo was cloned, the install removes the clone however it ends.
pub proof fn lemma_clone_removed_at_finish(s: InstallState, e: EventView)
    requires
        consistent(s),
        s.phase == Phase::Scanning ==> fits(e),
        s.clone_dir is Some,
    ensures
        next(s, e).phase matches Phase::Finished(_, remove_clone) ==> remove_clone,
{
    lemma_next_consistent(s, e);
}

/// A finished install stays finished, whatever it is told.
pub proof fn lemma_finished_is_final(s: InstallState, e: EventView)
    requires
        s.phase is Finished,
    ensures
        next(s, e) == s,
{
}

/// A failed scan ends the install before anything is installed: the report is
/// left as it was and the error names the repo, not the clone.
pub proof fn lemma_failed_scan_installs_nothing(
    s: InstallState,
    skills: Found,
    agents: Found,
)
    requires
        s.phase == Phase::Scanning,
        skills is Err || agents is Err,
    ensures
        next(s, EventView::Scanned(skills, agents)).phase is Finished,
        next(s, EventView::Scanned(skills, agents)).report == s.report,
        next(s, EventView::Scanned(skills, agents)).failure == Some(
            relabel(
                s,
                match (skills, agents) {
                    (Err(m), _) => m,
                    (_, Err(m)) => m,
                    _ => Seq::empty(),
                },
            ),
        ),
{
}


/// What the caller reports of one item's steps when every step succeeds and
/// the item's target existed as `exists` says.
pub open spec fn item_events(exists: bool, force: bool) -> Seq<EventView> {
    if exists && !force {
        seq![EventView::TargetExists(exists)]
    } else {
        seq![
            EventView::TargetExists(exists),
            EventView::Succeeded,
            EventView::Succeeded,
            EventView::Succeeded,
        ]
    }
}

/// What the caller reports of items `i..` in turn, every step succeeding and
/// item `k`'s target existing as `exists[k]` says.
pub open spec fn items_events(exists: Seq<bool>, force: bool, i: int) -> Seq<EventView>
    decreases exists.len() - i,
{
    if i < 0 || i >= exists.len() {
        Seq::empty()
    } else {
        item_events(exists[i], force) + items_events(exists, force, i + 1)
    }
}

/// Where an install stands after it is told `events`, one after another.
pub open spec fn run(s: InstallState, events: Seq<EventView>) -> InstallState
    decreases events.len(),
{
    if events.len() == 0 {
        s
    } else {
        run(next(s, events[0]), events.drop_first())
    }
}

/// The report of the first `n` items, in scan order: a skill is installed, or
/// skipped where its target existed and the install is not forced; an agent
/// likewise goes to the agent lists.
pub open spec fn expected_report(
    names: Seq<Seq<char>>,
    skill_count: nat,
    exists: Seq<bool>,
    force: bool,
    n: int,
) -> ReportView
    decreases n,
{
    if n <= 0 {
        empty_report()
    } else {
        let r = expected_report(names, skill_count, exists, force, n - 1);
        let name = names[n - 1];
        let skip = exists[n - 1] && !force;
        if n - 1 < skill_count {
            if skip {
                ReportView { skipped: r.skipped.push(name), ..r }
            } else {
                ReportView { installed: r.installed.push(name), ..r }
            }
        } else {
            if skip {
                ReportView { agents_skipped: r.agents_skipped.push(name), ..r }
            } else {
                ReportView { agents_installed: r.agents_installed.push(name), ..r }
            }
        }
    }
}

proof fn lemma_run_concat(s: InstallState, a: Seq<EventView>, b: Seq<EventView>)
    ensures
        run(s, a + b) == run(run(s, a), b),
    decreases a.len(),
{
    if a.len() == 0 {
        assert(a + b =~= b);
    } else {
        assert((a + b).drop_first() =~= a.drop_first() + b);
        assert((a + b)[0] == a[0]);
        lemma_run_concat(next(s, a[0]), a.drop_first(), b);
    }
}

proof fn lemma_run_item(s: InstallState, i: usize, exists: bool)
    requires
        s.phase == Phase::Checking(i),
        i < s.names.len(),
    ensures
        run(s, item_events(exists, s.force)) == begin_item(
            record(s, i as int, !(exists && !s.force)),
            i + 1,
        ),
{
    let es = item_events(exists, s.force);
    let s1 = next(s, es[0]);
    if exists && !s.force {
        assert(es.drop_first() =~= Seq::<EventView>::empty());
        assert(run(s, es) == run(s1, es.drop_first()));
    } else {
        let s2 = next(s1, EventView::Succeeded);
        let s3 = next(s2, EventView::Succeeded);
        let s4 = next(s3, EventView::Succeeded);
        assert(es.drop_first() =~= seq![EventView::Succeeded, EventView::Succeeded, EventView::Succeeded]);
        assert(es.drop_first().drop_first() =~= seq![EventView::Succeeded, EventView::Succeeded]);
        assert(es.drop_first().drop_first().drop_first() =~= seq![EventView::Succeeded]);
        assert(es.drop_first().drop_first().drop_first().drop_first() =~= Seq::<EventView>::empty());
        assert(run(s4, es.drop_first().drop_first().drop_first().drop_first()) == s4);
        assert(run(s3, es.drop_first().drop_first().drop_first()) == s4);
        assert(run(s2, es.drop_first().drop_first()) == s4);
        assert(run(s1, es.drop_first()) == s4);
        assert(run(s, es) == s4);
    }
}

proof fn lemma_run_items(s: InstallState, exists: Seq<bool>, i: int)
    requires
        well_formed(s),
        exists.len() == s.names.len(),
        0 <= i <= s.names.len(),
        s.failure is None,
        s.report == expected_report(s.names, s.skill_count, exists, s.force, i),
        i < s.names.len() ==> s.phase == Phase::Checking(i as usize),
        i == s.names.len() ==> s.phase == Phase::Finished(None, s.clone_dir is Some),
    ensures
        run(s, items_events(exists, s.force, i)).phase == Phase::Finished(None, s.clone_dir is Some),
        run(s, items_events(exists, s.force, i)).failure is None,
        run(s, items_events(exists, s.force, i)).names == s.names,
        run(s, items_events(exists, s.force, i)).sources == s.sources,
        run(s, items_events(exists, s.force, i)).report == expected_report(
            s.names,
            s.skill_count,
            exists,
            s.force,
            s.names.len() as int,
        ),
    decreases s.names.len() - i,
{
    if i < s.names.len() {
        let e = exists[i];
        lemma_run_item(s, i as usize, e);
        lemma_run_concat(s, item_events(e, s.force), items_events(exists, s.force, i + 1));
        let t = begin_item(record(s, i, !(e && !s.force)), i + 1);
        assert(t.report == expected_report(s.names, s.skill_count, exists, s.force, i + 1));
        lemma_run_items(t, exists, i + 1);
    } else {
        assert(items_events(exists, s.force, i) =~= Seq::<EventView>::empty());
    }
}

/// A whole install, once the source is scanned: when the scan finds the
/// skills `skills` and the agents `agents`, every step then succeeds, and
/// item `k`'s target existed as `exists[k]` says, the install ends with no
/// error, removes its clone where it made one, and its report records every
/// item once, in scan order: skills as installed, or as skipped exactly where
/// the target existed and the install is not forced, and agents likewise.
pub proof fn lemma_whole_install(
    s: InstallState,
    skills: Seq<(Seq<char>, Seq<char>)>,
    agents: Seq<(Seq<char>, Seq<char>)>,
    exists: Seq<bool>,
)
    requires
        s.phase == Phase::Scanning,
        s.report == empty_report(),
        s.failure is None,
        skills.len() + agents.len() <= usize::MAX,
        exists.len() == skills.len() + agents.len(),
    ensures
        ({
            let events = seq![
                EventView::Scanned(Ok(skills), Ok(agents)),
                EventView::Succeeded,
            ] + items_events(exists, s.force, 0);
            let t = run(s, events);
            &&& t.phase == Phase::Finished(None, s.clone_dir is Some)
            &&& t.failure is None
            &&& t.names == item_names(skills) + item_names(agents)
            &&& t.sources == item_sources(skills) + item_sources(agents)
            &&& t.report == expected_report(
                item_names(skills) + item_names(agents),
                skills.len(),
                exists,
                s.force,
                exists.len() as int,
            )
        }),
{
    let head = seq![EventView::Scanned(Ok(skills), Ok(agents)), EventView::Succeeded];
    let s1 = next(s, head[0]);
    let s2 = next(s1, head[1]);
    assert(head.drop_first() =~= seq![EventView::Succeeded]);
    assert(head.drop_first().drop_first() =~= Seq::<EventView>::empty());
    assert(run(s2, head.drop_first().drop_first()) == s2);
    assert(run(s1, head.drop_first()) == s2);
    assert(run(s, head) == s2);
    lemma_run_concat(s, head, items_events(exists, s.force, 0));
    assert(s2.names == item_names(skills) + item_names(agents));
    lemma_run_items(s2, exists, 0);
}


/// `installed <kind> <name> -> <path>`
pub open spec fn installed_line(kind: Seq<char>, name: Seq<char>, path: Seq<char>) -> Seq<char> {
    "installed "@ + kind + " "@ + name + " -> "@ + path
}

/// `skipped <kind> <name> (already exists, use --force)`
pub open spec fn skipped_line(kind: Seq<char>, name: Seq<char>) -> Seq<char> {
    "skipped "@ + kind + " "@ + name + " (already exists, use --force)"@
}

pub open spec fn kind_word(is_agent: bool) -> Seq<char> {
    if is_agent {
        "agent"@
    } else {
        "skill"@
    }
}

/// What an install prints on standard output: a line for each installed
/// skill, then for each installed agent, each with where it went; or, where
/// nothing was installed or skipped, that the repo holds nothing.
pub open spec fn report_out(r: ReportView, skills_dest: Seq<char>, agents_dest: Seq<char>, repo: Seq<char>) -> Seq<Seq<char>> {
    r.installed.map_values(
        |n: Seq<char>| installed_line("skill"@, n, target::item_target(skills_dest, agents_dest, n, false)),
    ) + r.agents_installed.map_values(
        |n: Seq<char>| installed_line("agent"@, n, target::item_target(skills_dest, agents_dest, n, true)),
    ) + if r.installed.len() == 0 && r.skipped.len() == 0 && r.agents_installed.len() == 0
        && r.agents_skipped.len() == 0 {
        seq!["no skills or agents found in "@ + repo]
    } else {
        Seq::empty()
    }
}

/// What an install prints on standard error: a line for each skipped skill,
/// then for each skipped agent.
pub open spec fn report_err(r: ReportView) -> Seq<Seq<char>> {
    r.skipped.map_values(|n: Seq<char>| skipped_line("skill"@, n)) + r.agents_skipped.map_values(
        |n: Seq<char>| skipped_line("agent"@, n),
    )
}

fn kind_str(is_agent: bool) -> (r: &'static str)
    ensures
        r@ == kind_word(is_agent),
{
    if is_agent {
        "agent"
    } else {
        "skill"
    }
}

fn installed_lines(names: &Vec<String>, skills_dest: &str, agents_dest: &str, is_agent: bool) -> (r: Vec<String>)
    ensures
        names_view(r@) == names_view(names@).map_values(
            |n: Seq<char>|
                installed_line(
                    kind_word(is_agent),
                    n,
                    target::item_target(skills_dest@, agents_dest@, n, is_agent),
                ),
        ),
{
    let mut r: Vec<String> = Vec::new();
    let ghost f = |n: Seq<char>|
        installed_line(kind_word(is_agent), n, target::item_target(skills_dest@, agents_dest@, n, is_agent));
    for i in 0..names.len()
        invariant
            names_view(r@) == names_view(names@).take(i as int).map_values(f),
            forall|n: Seq<char>|
                #[trigger] f(n) == installed_line(
                    kind_word(is_agent),
                    n,
                    target::item_target(skills_dest@, agents_dest@, n, is_agent),
                ),
    {
        let path = target::target_path(skills_dest, agents_dest, names[i].as_str(), is_agent);
        let mut line = String::from_str("installed ");
        line.append(kind_str(is_agent));
        line.append(" ");
        line.append(names[i].as_str());
        line.append(" -> ");
        line.append(path.as_str());
        let ghost prev = r@;
        let ghost v = line@;
        r.push(line);
        assert(names_view(r@) =~= names_view(prev).push(v));
        assert(names_view(names@).take(i + 1) =~= names_view(names@).take(i as int).push(names[i as int]@));
        assert(v == f(names[i as int]@));
        assert(names_view(names@).take(i + 1).map_values(f) =~= names_view(names@).take(
            i as int,
        ).map_values(f).push(f(names[i as int]@)));
    }
    assert(names_view(names@).take(names@.len() as int) =~= names_view(names@));
    r
}

fn skipped_lines(names: &Vec<String>, is_agent: bool) -> (r: Vec<String>)
    ensures
        names_view(r@) == names_view(names@).map_values(
            |n: Seq<char>| skipped_line(kind_word(is_agent), n),
        ),
{
    let mut r: Vec<String> = Vec::new();
    let ghost f = |n: Seq<char>| skipped_line(kind_word(is_agent), n);
    for i in 0..names.len()
        invariant
            names_view(r@) == names_view(names@).take(i as int).map_values(f),
            forall|n: Seq<char>| #[trigger] f(n) == skipped_line(kind_word(is_agent), n),
    {
        let mut line = String::from_str("skipped ");
        line.append(kind_str(is_agent));
        line.append(" ");
        line.append(names[i].as_str());
        line.append(" (already exists, use --force)");
        let ghost prev = r@;
        let ghost v = line@;
        r.push(line);
        assert(names_view(r@) =~= names_view(prev).push(v));
        assert(names_view(names@).take(i + 1) =~= names_view(names@).take(i as int).push(names[i as int]@));
        assert(v == f(names[i as int]@));
        assert(names_view(names@).take(i + 1).map_values(f) =~= names_view(names@).take(
            i as int,
        ).map_values(f).push(f(names[i as int]@)));
    }
    assert(names_view(names@).take(names@.len() as int) =~= names_view(names@));
    r
}

/// The lines an install prints: those for standard output, then those for
/// standard error.
pub fn report_lines(report: &Report, skills_dest: &str, agents_dest: &str, repo: &str) -> (r: (Vec<String>, Vec<String>))
    ensures
        names_view(r.0@) == report_out(report@, skills_dest@, agents_dest@, repo@),
        names_view(r.1@) == report_err(report@),
{
    let mut out = installed_lines(&report.installed, skills_dest, agents_dest, false);
    let mut agents_out = installed_lines(&report.agents_installed, skills_dest, agents_dest, true);
    let ghost a = out@;
    let ghost b = agents_out@;
    out.append(&mut agents_out);
    assert(names_view(out@) =~= names_view(a) + names_view(b));
    if report.is_empty() {
        let mut line = String::from_str("no skills or agents found in ");
        line.append(repo);
        let ghost prev = out@;
        let ghost v = line@;
        out.push(line);
        assert(names_view(out@) =~= names_view(prev) + seq![v]);
    } else {
        assert(names_view(out@) =~= names_view(out@) + Seq::<Seq<char>>::empty());
    }
    let mut err = skipped_lines(&report.skipped, false);
    let mut agents_err = skipped_lines(&report.agents_skipped, true);
    let ghost c = err@;
    let ghost d = agents_err@;
    err.append(&mut agents_err);
    assert(names_view(err@) =~= names_view(c) + names_view(d));
    (out, err)
}


/// An item is skipped when its target already existed and the install is not
/// forced.
pub open spec fn skipped_by(existing: Set<Seq<char>>, force: bool) -> spec_fn(Seq<char>) -> bool {
    |n: Seq<char>| existing.contains(n) && !force
}

/// An item is installed otherwise.
pub open spec fn installed_by(existing: Set<Seq<char>>, force: bool) -> spec_fn(Seq<char>) -> bool {
    |n: Seq<char>| !(existing.contains(n) && !force)
}

proof fn lemma_expected_report_filters(
    names: Seq<Seq<char>>,
    skill_count: nat,
    exists: Seq<bool>,
    existing: Set<Seq<char>>,
    force: bool,
    n: int,
)
    requires
        skill_count <= names.len(),
        exists.len() == names.len(),
        0 <= n <= names.len(),
        forall|k: int| 0 <= k < names.len() ==> #[trigger] exists[k] == existing.contains(names[k]),
    ensures
        ({
            let r = expected_report(names, skill_count, exists, force, n);
            let skills = names.take(if n < skill_count { n } else { skill_count as int });
            let agents = names.subrange(skill_count as int, if n < skill_count { skill_count as int } else { n });
            &&& r.installed == skills.filter(installed_by(existing, force))
            &&& r.skipped == skills.filter(skipped_by(existing, force))
            &&& r.agents_installed == agents.filter(installed_by(existing, force))
            &&& r.agents_skipped == agents.filter(skipped_by(existing, force))
        }),
    decreases n,
{
    reveal(Seq::filter);
    let sc = skill_count as int;
    if n == 0 {
        assert(names.take(0) =~= Seq::<Seq<char>>::empty());
        assert(names.subrange(sc, sc) =~= Seq::<Seq<char>>::empty());
    } else {
        lemma_expected_report_filters(names, skill_count, exists, existing, force, n - 1);
        let x = names[n - 1];
        assert(exists[n - 1] == existing.contains(x));
        if n - 1 < sc {
            assert(names.take(n).drop_last() =~= names.take(n - 1));
            assert(names.take(n).last() == x);
        } else {
            assert(names.subrange(sc, n).drop_last() =~= names.subrange(sc, n - 1));
            assert(names.subrange(sc, n).last() == x);
            if n - 1 == sc {
                assert(names.subrange(sc, n - 1) =~= names.subrange(sc, sc));
            }
        }
    }
}

/// The report of a whole install in filter form: with `existing` the names
/// whose targets existed before, the installed skills are the scanned skills
/// that were not skipped, and the skipped skills those whose target existed
/// while the install was not forced, both in scan order; agents likewise.
pub proof fn lemma_report_filters(
    skills: Seq<Seq<char>>,
    agents: Seq<Seq<char>>,
    exists: Seq<bool>,
    existing: Set<Seq<char>>,
    force: bool,
)
    requires
        exists.len() == skills.len() + agents.len(),
        forall|k: int|
            0 <= k < exists.len() ==> #[trigger] exists[k] == existing.contains((skills + agents)[k]),
    ensures
        ({
            let r = expected_report(skills + agents, skills.len(), exists, force, exists.len() as int);
            &&& r.installed == skills.filter(installed_by(existing, force))
            &&& r.skipped == skills.filter(skipped_by(existing, force))
            &&& r.agents_installed == agents.filter(installed_by(existing, force))
            &&& r.agents_skipped == agents.filter(skipped_by(existing, force))
        }),
{
    let names = skills + agents;
    lemma_expected_report_filters(names, skills.len(), exists, existing, force, names.len() as int);
    assert(names.take(skills.len() as int) =~= skills);
    assert(names.subrange(skills.len() as int, names.len() as int) =~= agents);
}

/// A failed copy into the staging place ends the install at once: the error
/// is the copy's, the staging place is to be removed, nothing already
/// installed is undone, and no later step (and so no later target) follows.
pub proof fn lemma_failed_stage_stops(s: InstallState, i: usize, m: Seq<char>, e: EventView)
    requires
        s.phase == Phase::Staging(i),
    ensures
        next(s, EventView::Failed(m)).failure == Some(m),
        next(s, EventView::Failed(m)).report == s.report,
        step_of(next(s, EventView::Failed(m))) == (Step::Finish {
            remove_staging: Some(i),
            remove_clone: s.clone_dir is Some,
        }),
        next(next(s, EventView::Failed(m)), e) == next(s, EventView::Failed(m)),
{
}


/// The item a phase is handling, if any.
pub open spec fn phase_item(phase: Phase) -> Option<usize> {
    match phase {
        Phase::Checking(i) => Some(i),
        Phase::Staging(i) => Some(i),
        Phase::Clearing(i) => Some(i),
        Phase::Renaming(i) => Some(i),
        _ => None,
    }
}

/// Every step asked for while an item is being handled names that very item
/// and fits where the handling stands: its target is checked, then it is
/// staged, then its own target is cleared, then its staged copy is renamed
/// onto it. No step of one item touches another item's target.
pub proof fn lemma_steps_name_their_item(s: InstallState)
    ensures
        s.phase matches Phase::Checking(i) ==> step_of(s) == Step::CheckTarget(i),
        s.phase matches Phase::Staging(i) ==> step_of(s) == Step::Stage(i),
        s.phase matches Phase::Clearing(i) ==> step_of(s) == Step::ClearTarget(i),
        s.phase matches Phase::Renaming(i) ==> step_of(s) == Step::Rename(i),
        phase_item(s.phase) is None ==> !(step_of(s) is CheckTarget || step_of(s) is Stage
            || step_of(s) is ClearTarget || step_of(s) is Rename),
{
}

/// What an install prints on standard output has one line per installed
/// skill and agent, and one line more exactly when the report records
/// nothing at all; that line then is `no skills or agents found in <repo>`.
/// A report with any skipped item never yields it.
pub proof fn lemma_report_out_lines(
    r: ReportView,
    skills_dest: Seq<char>,
    agents_dest: Seq<char>,
    repo: Seq<char>,
)
    ensures
        report_out(r, skills_dest, agents_dest, repo).len() == r.installed.len()
            + r.agents_installed.len() + if r.installed.len() == 0 && r.skipped.len() == 0
            && r.agents_installed.len() == 0 && r.agents_skipped.len() == 0 {
            1int
        } else {
            0int
        },
        (r.installed.len() == 0 && r.skipped.len() == 0 && r.agents_installed.len() == 0
            && r.agents_skipped.len() == 0) ==> report_out(r, skills_dest, agents_dest, repo)
            == seq!["no skills or agents found in "@ + repo],
        report_err(r).len() == r.skipped.len() + r.agents_skipped.len(),
{
    let out = report_out(r, skills_dest, agents_dest, repo);
    if r.installed.len() == 0 && r.skipped.len() == 0 && r.agents_installed.len() == 0
        && r.agents_skipped.len() == 0 {
        assert(out =~= seq!["no skills or agents found in "@ + repo]);
    }
}

} // verus!
