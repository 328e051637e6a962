use vstd::prelude::*;

use crate::listing;

verus! {

/// Command found in a repo's `commands/` directory: its name and its file.
#[derive(Debug, Clone, PartialEq, Eq)]
pub struct Command {
    pub name: String,
    pub path: String,
}

impl View for Command {
    type V = (Seq<char>, Seq<char>);

    open spec fn view(&self) -> (Seq<char>, Seq<char>) {
        (self.name@, self.path@)
    }
}

/// Lists the commands of a repo, ordered by name. `has_commands_dir` tells
/// whether the repo has an `commands/` directory, `entries` are its entries in
/// listing order. A repo without the directory has no commands.
pub fn scan_commands(has_commands_dir: bool, entries: &Vec<listing::MarkdownEntry>) -> (r: Result<Vec<Command>, String>)
    ensures
        match r {
            Ok(found) => listing::list_spec(listing::Kind::Command, has_commands_dir, entries@)
                == crate::skills::Found::Ok(found@.map_values(|a: Command| a@)),
            Err(e) => listing::list_spec(listing::Kind::Command, has_commands_dir, entries@)
                == crate::skills::Found::Err(e@),
        },
{
    let items = listing::scan_markdown(listing::Kind::Command, has_commands_dir, entries)?;
    let mut found: Vec<Command> = Vec::new();
    let n = items.len();
    for i in 0..n
        invariant
            n == items@.len(),
            found@.map_values(|a: Command| a@) == listing::pairs_view(items@).take(i as int),
    {
        let ghost prev = found@;
        let item = Command { name: items[i].0.clone(), path: items[i].1.clone() };
        assert(item@ == listing::pairs_view(items@)[i as int]);
        found.push(item);
        assert(found@.map_values(|a: Command| a@) =~= prev.map_values(|a: Command| a@).push(item@));
        assert(found@.map_values(|a: Command| a@) =~= listing::pairs_view(items@).take(i + 1));
    }
    assert(listing::pairs_view(items@).take(n as int) =~= listing::pairs_view(items@));
    Ok(found)
}

} // verus!
