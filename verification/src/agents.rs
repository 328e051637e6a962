use vstd::prelude::*;

use crate::listing;

verus! {

/// Agent found in a repo's `agents/` directory: its name and its file.
#[derive(Debug, Clone, PartialEq, Eq)]
pub struct Agent {
    pub name: String,
    pub path: String,
}

impl View for Agent {
    type V = (Seq<char>, Seq<char>);

    open spec fn view(&self) -> (Seq<char>, Seq<char>) {
        (self.name@, self.path@)
    }
}

/// Lists the agents of a repo, ordered by name. `has_agents_dir` tells
/// whether the repo has an `agents/` directory, `entries` are its entries in
/// listing order. A repo without the directory has no agents.
pub fn scan_agents(has_agents_dir: bool, entries: &Vec<listing::MarkdownEntry>) -> (r: Result<Vec<Agent>, String>)
    ensures
        match r {
            Ok(found) => listing::list_spec(listing::Kind::Agent, has_agents_dir, entries@)
                == crate::skills::Found::Ok(found@.map_values(|a: Agent| a@)),
            Err(e) => listing::list_spec(listing::Kind::Agent, has_agents_dir, entries@)
                == crate::skills::Found::Err(e@),
        },
{
    let items = listing::scan_markdown(listing::Kind::Agent, has_agents_dir, entries)?;
    let mut found: Vec<Agent> = Vec::new();
    let n = items.len();
    for i in 0..n
        invariant
            n == items@.len(),
            found@.map_values(|a: Agent| a@) == listing::pairs_view(items@).take(i as int),
    {
        let ghost prev = found@;
        let item = Agent { name: items[i].0.clone(), path: items[i].1.clone() };
        assert(item@ == listing::pairs_view(items@)[i as int]);
        found.push(item);
        assert(found@.map_values(|a: Agent| a@) =~= prev.map_values(|a: Agent| a@).push(item@));
        assert(found@.map_values(|a: Agent| a@) =~= listing::pairs_view(items@).take(i + 1));
    }
    assert(listing::pairs_view(items@).take(n as int) =~= listing::pairs_view(items@));
    Ok(found)
}

} // verus!
