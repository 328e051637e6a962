use vstd::prelude::*;

use crate::skills;
use crate::text;

verus! {

/// A `(name, path)` pair, as a scan reports each item it finds.
pub type Item = (Seq<char>, Seq<char>);

/// The two directories of a repo that hold one markdown file per item.
pub enum Kind {
    Agent,
    Command,
}

/// The directory prefix that error messages give an entry of this kind.
pub open spec fn dir_prefix(kind: Kind) -> Seq<char> {
    match kind {
        Kind::Agent => "agents/"@,
        Kind::Command => "commands/"@,
    }
}

/// The word that error messages use for an item of this kind.
pub open spec fn noun(kind: Kind) -> Seq<char> {
    match kind {
        Kind::Agent => "agent"@,
        Kind::Command => "command"@,
    }
}

/// One entry of an `agents/` or `commands/` directory, as the file system
/// showed it.
pub struct MarkdownEntry {
    pub file_name: String,
    pub path: String,
    pub is_dir: bool,
}

/// An entry is an item when it is a file whose name ends in `.md` and is not
/// `README.md`; every other entry is passed over.
pub open spec fn is_listed(e: MarkdownEntry) -> bool {
    !e.is_dir && text::ends_with(e.file_name@, ".md"@) && e.file_name@ != "README.md"@
}

/// The name of an item: its file name without its trailing `.md` suffixes.
pub open spec fn item_name(file_name: Seq<char>) -> Seq<char> {
    text::trim_end_matches(file_name, ".md"@)
}

pub open spec fn entry_outcome(kind: Kind, e: MarkdownEntry) -> Option<Result<Item, Seq<char>>> {
    if !is_listed(e) {
        None
    } else {
        let name = item_name(e.file_name@);
        if !skills::valid_name(name) {
            Some(
                Err(
                    dir_prefix(kind) + e.file_name@ + ": invalid "@ + noun(kind) + " name '"@ + name
                        + "'"@,
                ),
            )
        } else {
            Some(Ok((name, e.path@)))
        }
    }
}

/// The items of the entries in listing order, or the error of the first
/// entry with an invalid name.
pub open spec fn collect_entries(kind: Kind, entries: Seq<MarkdownEntry>) -> skills::Found
    decreases entries.len(),
{
    if entries.len() == 0 {
        Ok(Seq::empty())
    } else {
        match collect_entries(kind, entries.drop_last()) {
            Err(e) => Err(e),
            Ok(found) => match entry_outcome(kind, entries.last()) {
                None => Ok(found),
                Some(Err(e)) => Err(e),
                Some(Ok(item)) => Ok(found.push(item)),
            },
        }
    }
}

/// `x` put into `t` after every item whose name is not greater than its own.
pub open spec fn insert_by_name(t: Seq<Item>, x: Item) -> Seq<Item>
    decreases t.len(),
{
    if t.len() == 0 {
        seq![x]
    } else if text::lex_lt(x.0, t.last().0) {
        insert_by_name(t.drop_last(), x).push(t.last())
    } else {
        t.push(x)
    }
}

/// The items ordered by name; items of equal name keep their order (a stable
/// sort, as `slice::sort_by` is).
pub open spec fn sort_by_name(s: Seq<Item>) -> Seq<Item>
    decreases s.len(),
{
    if s.len() == 0 {
        Seq::empty()
    } else {
        insert_by_name(sort_by_name(s.drop_last()), s.last())
    }
}

/// What listing a directory of this kind gives: nothing where the directory
/// does not exist, else its items ordered by name, or the first error.
pub open spec fn list_spec(kind: Kind, has_dir: bool, entries: Seq<MarkdownEntry>) -> skills::Found {
    if !has_dir {
        Ok(Seq::empty())
    } else {
        match collect_entries(kind, entries) {
            Ok(found) => Ok(sort_by_name(found)),
            Err(e) => Err(e),
        }
    }
}

pub open spec fn pairs_view(v: Seq<(String, String)>) -> Seq<Item> {
    v.map_values(|p: (String, String)| (p.0@, p.1@))
}

proof fn lemma_collect_err(kind: Kind, entries: Seq<MarkdownEntry>, i: int)
    requires
        0 <= i <= entries.len(),
        collect_entries(kind, entries.take(i)) is Err,
    ensures
        collect_entries(kind, entries) == collect_entries(kind, entries.take(i)),
    decreases entries.len() - i,
{
    if i < entries.len() {
        assert(entries.take(i + 1).drop_last() =~= entries.take(i));
        lemma_collect_err(kind, entries, i + 1);
    } else {
        assert(entries.take(i) =~= entries);
    }
}

fn dir_prefix_str(kind: &Kind) -> (r: &'static str)
    ensures
        r@ == dir_prefix(*kind),
{
    match kind {
        Kind::Agent => "agents/",
        Kind::Command => "commands/",
    }
}

fn noun_str(kind: &Kind) -> (r: &'static str)
    ensures
        r@ == noun(*kind),
{
    match kind {
        Kind::Agent => "agent",
        Kind::Command => "command",
    }
}

fn check_entry(kind: &Kind, e: &MarkdownEntry) -> (r: Option<Result<(String, String), String>>)
    ensures
        match (r, entry_outcome(*kind, *e)) {
            (None, None) => true,
            (Some(Ok(p)), Some(Ok(v))) => (p.0@, p.1@) == v,
            (Some(Err(m)), Some(Err(v))) => m@ == v,
            _ => false,
        },
{
    if e.is_dir {
        return None;
    }
    let chars = text::chars_of(e.file_name.as_str());
    let md = text::chars_of(".md");
    let n = chars.len();
    proof {
        assert(chars@.take(n as int) =~= chars@);
    }
    if !text::range_ends_with(&chars, n, &md) {
        return None;
    }
    let readme = String::from_str("README.md");
    if e.file_name == readme {
        return None;
    }
    let end = text::trim_end_matches_bound(&chars, n, &md);
    let name = String::from_str(e.file_name.as_str().substring_char(0, end));
    assert(name@ =~= chars@.take(end as int));
    if !skills::is_valid_name(name.as_str()) {
        let mut m = String::from_str(dir_prefix_str(kind));
        m.append(e.file_name.as_str());
        m.append(": invalid ");
        m.append(noun_str(kind));
        m.append(" name '");
        m.append(name.as_str());
        m.append("'");
        return Some(Err(m));
    }
    Some(Ok((name, e.path.clone())))
}

/// Where `x` goes in `sorted` so that the result is `insert_by_name(sorted, x)`.
fn insert_position(sorted: &Vec<(String, String)>, name: &String) -> (r: usize)
    ensures
        r <= sorted@.len(),
        forall|path: Seq<char>|
            #![trigger insert_by_name(pairs_view(sorted@), (name@, path))]
            insert_by_name(pairs_view(sorted@), (name@, path)) == pairs_view(sorted@).take(
                r as int,
            ).push((name@, path)) + pairs_view(sorted@).skip(r as int),
{
    let ghost t = pairs_view(sorted@);
    let mut j = sorted.len();
    proof {
        assert forall|path: Seq<char>|
            #![trigger insert_by_name(t, (name@, path))]
            insert_by_name(t, (name@, path)) == insert_by_name(t.take(j as int), (name@, path))
                + t.skip(j as int) by {
            assert(t.take(j as int) =~= t);
            assert(t.skip(j as int) =~= Seq::<Item>::empty());
            assert(insert_by_name(t, (name@, path)) + Seq::<Item>::empty() =~= insert_by_name(
                t,
                (name@, path),
            ));
        }
    }
    while j > 0 && text::str_lt(name.as_str(), sorted[j - 1].0.as_str())
        invariant
            t == pairs_view(sorted@),
            j <= sorted@.len(),
            j < sorted@.len() ==> text::lex_lt(name@, t[j as int].0),
            forall|path: Seq<char>|
                #![trigger insert_by_name(t, (name@, path))]
                insert_by_name(t, (name@, path)) == insert_by_name(
                    t.take(j as int),
                    (name@, path),
                ) + t.skip(j as int),
        decreases j,
    {
        proof {
            assert forall|path: Seq<char>|
                #![trigger insert_by_name(t, (name@, path))]
                insert_by_name(t, (name@, path)) == insert_by_name(
                    t.take(j - 1),
                    (name@, path),
                ) + t.skip(j - 1) by {
                let x = (name@, path);
                assert(t.take(j as int).drop_last() =~= t.take(j - 1));
                assert(t.take(j as int).last() == t[j - 1]);
                assert(insert_by_name(t.take(j as int), x) == insert_by_name(t.take(j - 1), x).push(
                    t[j - 1],
                ));
                assert(t.skip(j - 1) =~= seq![t[j - 1]] + t.skip(j as int));
                assert(insert_by_name(t.take(j - 1), x).push(t[j - 1]) + t.skip(j as int)
                    =~= insert_by_name(t.take(j - 1), x) + t.skip(j - 1));
            }
        }
        j = j - 1;
    }
    proof {
        assert forall|path: Seq<char>|
            #![trigger insert_by_name(t, (name@, path))]
            insert_by_name(t, (name@, path)) == t.take(j as int).push((name@, path)) + t.skip(
                j as int,
            ) by {
            let x = (name@, path);
            if j > 0 {
                assert(t.take(j as int).last() == t[j - 1]);
            }
        }
    }
    j
}

/// Lists the items of an `agents/` or `commands/` directory: `has_dir` tells
/// whether the directory exists, `entries` are its entries in listing order.
pub fn scan_markdown(kind: Kind, has_dir: bool, entries: &Vec<MarkdownEntry>) -> (r: Result<
    Vec<(String, String)>,
    String,
>)
    ensures
        match r {
            Ok(items) => list_spec(kind, has_dir, entries@) == skills::Found::Ok(
                pairs_view(items@),
            ),
            Err(e) => list_spec(kind, has_dir, entries@) == skills::Found::Err(e@),
        },
{
    let mut sorted: Vec<(String, String)> = Vec::new();
    assert(pairs_view(sorted@) =~= Seq::<Item>::empty());
    if !has_dir {
        return Ok(sorted);
    }
    let ghost mut found: Seq<Item> = Seq::empty();
    let n = entries.len();
    assert(entries@.take(0) =~= Seq::<MarkdownEntry>::empty());
    for i in 0..n
        invariant
            n == entries@.len(),
            has_dir,
            collect_entries(kind, entries@.take(i as int)) == skills::Found::Ok(found),
            pairs_view(sorted@) == sort_by_name(found),
    {
        assert(entries@.take(i + 1).drop_last() =~= entries@.take(i as int));
        assert(entries@.take(i + 1).last() == entries@[i as int]);
        let ghost outcome = entry_outcome(kind, entries@[i as int]);
        match check_entry(&kind, &entries[i]) {
            None => {},
            Some(Ok(item)) => {
                let ghost v = (item.0@, item.1@);
                let ghost prev = sorted@;
                let pos = insert_position(&sorted, &item.0);
                sorted.insert(pos, item);
                proof {
                    assert(insert_by_name(pairs_view(prev), v) == pairs_view(prev).take(
                        pos as int,
                    ).push(v) + pairs_view(prev).skip(pos as int));
                    assert(pairs_view(sorted@) =~= pairs_view(prev).take(pos as int).push(v)
                        + pairs_view(prev).skip(pos as int));
                    assert(found.push(v).drop_last() =~= found);
                    found = found.push(v);
                }
            },
            Some(Err(e)) => {
                assert(outcome matches Some(Err(m)) && m == e@);
                assert(collect_entries(kind, entries@.take(i + 1)) == skills::Found::Err(e@));
                proof {
                    lemma_collect_err(kind, entries@, i + 1);
                }
                return Err(e);
            },
        }
    }
    assert(entries@.take(n as int) =~= entries@);
    Ok(sorted)
}


/// `a` does not come after `b` by name.
pub open spec fn name_le(a: Item, b: Item) -> bool {
    !text::lex_lt(b.0, a.0)
}

/// The items are ordered by name.
pub open spec fn sorted_by_name(s: Seq<Item>) -> bool {
    forall|i: int, j: int| 0 <= i < j < s.len() ==> name_le(#[trigger] s[i], #[trigger] s[j])
}

proof fn lemma_name_le_transitive(a: Item, b: Item, c: Item)
    requires
        name_le(a, b),
        name_le(b, c),
    ensures
        name_le(a, c),
{
    text::lemma_lex_lt_total(a.0, b.0);
    if text::lex_lt(c.0, a.0) {
        if text::lex_lt(a.0, b.0) {
            text::lemma_lex_lt_transitive(c.0, a.0, b.0);
        }
    }
}

/// Every item of `insert_by_name(t, x)` is `x` or an item of `t`.
proof fn lemma_insert_bounded(t: Seq<Item>, x: Item, bound: Item)
    requires
        forall|k: int| 0 <= k < t.len() ==> name_le(#[trigger] t[k], bound),
        name_le(x, bound),
    ensures
        forall|k: int|
            0 <= k < insert_by_name(t, x).len() ==> name_le(#[trigger] insert_by_name(t, x)[k], bound),
        insert_by_name(t, x).len() == t.len() + 1,
    decreases t.len(),
{
    if t.len() > 0 && text::lex_lt(x.0, t.last().0) {
        lemma_insert_bounded(t.drop_last(), x, bound);
    }
}

proof fn lemma_insert_sorted(t: Seq<Item>, x: Item)
    requires
        sorted_by_name(t),
    ensures
        sorted_by_name(insert_by_name(t, x)),
        insert_by_name(t, x).to_multiset() == t.to_multiset().insert(x),
    decreases t.len(),
{
    broadcast use vstd::seq_lib::group_to_multiset_ensures;

    if t.len() == 0 {
        assert(seq![x] =~= Seq::<Item>::empty().push(x));
    } else if text::lex_lt(x.0, t.last().0) {
        let rest = t.drop_last();
        let last = t.last();
        lemma_insert_sorted(rest, x);
        text::lemma_lex_lt_total(x.0, last.0);
        lemma_insert_bounded(rest, x, last);
        assert(t =~= rest.push(last));
        let r = insert_by_name(rest, x);
        assert forall|i: int, j: int|
            0 <= i < j < r.push(last).len() implies name_le(
            #[trigger] r.push(last)[i],
            #[trigger] r.push(last)[j],
        ) by {
            if j == r.len() {
                assert(r.push(last)[i] == r[i]);
            } else {
                assert(r.push(last)[i] == r[i]);
                assert(r.push(last)[j] == r[j]);
            }
        }
    } else {
        let last = t.last();
        text::lemma_lex_lt_total(x.0, last.0);
        assert forall|i: int, j: int|
            0 <= i < j < t.push(x).len() implies name_le(
            #[trigger] t.push(x)[i],
            #[trigger] t.push(x)[j],
        ) by {
            if j == t.len() {
                assert(t.push(x)[i] == t[i]);
                if i < t.len() - 1 {
                    assert(name_le(t[i], t[t.len() - 1]));
                    lemma_name_le_transitive(t[i], last, x);
                }
            } else {
                assert(t.push(x)[i] == t[i]);
                assert(t.push(x)[j] == t[j]);
            }
        }
    }
}

/// Sorting by name gives an ordering of the same items.
pub proof fn lemma_sort_by_name(s: Seq<Item>)
    ensures
        sorted_by_name(sort_by_name(s)),
        sort_by_name(s).to_multiset() == s.to_multiset(),
    decreases s.len(),
{
    broadcast use vstd::seq_lib::group_to_multiset_ensures;

    if s.len() == 0 {
        assert(s =~= Seq::<Item>::empty());
    } else {
        lemma_sort_by_name(s.drop_last());
        lemma_insert_sorted(sort_by_name(s.drop_last()), s.last());
        assert(s =~= s.drop_last().push(s.last()));
    }
}

/// Agents and commands are listed in order of their names, and what is listed
/// is exactly the items of the directory's entries, each once.
pub proof fn lemma_listing_sorted(kind: Kind, has_dir: bool, entries: Seq<MarkdownEntry>)
    ensures
        match list_spec(kind, has_dir, entries) {
            Ok(items) => sorted_by_name(items) && (has_dir ==> match collect_entries(
                kind,
                entries,
            ) {
                Ok(found) => items.to_multiset() == found.to_multiset(),
                Err(_) => false,
            }),
            Err(_) => true,
        },
{
    match collect_entries(kind, entries) {
        Ok(found) => lemma_sort_by_name(found),
        Err(_) => {},
    }
}


proof fn lemma_collected_valid(kind: Kind, entries: Seq<MarkdownEntry>)
    ensures
        collect_entries(kind, entries) matches Ok(found) ==> forall|k: int|
            0 <= k < found.len() ==> {
                &&& skills::valid_name(#[trigger] found[k].0)
                &&& exists|i: int|
                    0 <= i < entries.len() && is_listed(entries[i]) && item_name(
                        entries[i].file_name@,
                    ) == found[k].0 && entries[i].path@ == found[k].1
            },
    decreases entries.len(),
{
    if entries.len() > 0 {
        let rest = entries.drop_last();
        lemma_collected_valid(kind, rest);
        if let Ok(found) = collect_entries(kind, entries) {
            if let Ok(prev) = collect_entries(kind, rest) {
                assert forall|k: int| 0 <= k < found.len() implies {
                    &&& skills::valid_name(#[trigger] found[k].0)
                    &&& exists|i: int|
                        0 <= i < entries.len() && is_listed(entries[i]) && item_name(
                            entries[i].file_name@,
                        ) == found[k].0 && entries[i].path@ == found[k].1
                } by {
                    if k < prev.len() {
                        let i = choose|i: int|
                            0 <= i < rest.len() && is_listed(rest[i]) && item_name(
                                rest[i].file_name@,
                            ) == prev[k].0 && rest[i].path@ == prev[k].1;
                        assert(entries[i] == rest[i]);
                    } else {
                        assert(entries[entries.len() - 1] == entries.last());
                    }
                }
            }
        }
    }
}

/// Every agent or command listed has a valid name, and comes from a markdown
/// file of the directory (not `README.md`, not a directory) whose name, less
/// its `.md` suffixes, is that name.
pub proof fn lemma_listed_items_valid(kind: Kind, has_dir: bool, entries: Seq<MarkdownEntry>)
    ensures
        list_spec(kind, has_dir, entries) matches Ok(items) ==> forall|x: Item|
            items.contains(x) ==> {
                &&& skills::valid_name(x.0)
                &&& exists|i: int|
                    0 <= i < entries.len() && is_listed(entries[i]) && item_name(
                        entries[i].file_name@,
                    ) == x.0 && entries[i].path@ == x.1
            },
{
    broadcast use vstd::seq_lib::group_to_multiset_ensures;

    if has_dir {
        if let Ok(found) = collect_entries(kind, entries) {
            lemma_sort_by_name(found);
            lemma_collected_valid(kind, entries);
            let items = sort_by_name(found);
            assert forall|x: Item| items.contains(x) implies {
                &&& skills::valid_name(x.0)
                &&& exists|i: int|
                    0 <= i < entries.len() && is_listed(entries[i]) && item_name(
                        entries[i].file_name@,
                    ) == x.0 && entries[i].path@ == x.1
            } by {
                assert(items.to_multiset().count(x) > 0);
                assert(found.contains(x));
                let k = choose|k: int| 0 <= k < found.len() && found[k] == x;
                assert(skills::valid_name(found[k].0));
            }
        }
    }
}


/// An entry shaped like an item: a file (no directory) whose name ends in
/// `.md` and is not `README.md`.
pub open spec fn md_file(e: MarkdownEntry) -> bool {
    !e.is_dir && text::ends_with(e.file_name@, ".md"@) && e.file_name@ != "README.md"@
}

/// Such an entry's `(name, path)`: the name is the file name with its
/// trailing `.md` suffixes removed.
pub open spec fn md_pair(e: MarkdownEntry) -> Item {
    (text::trim_end_matches(e.file_name@, ".md"@), e.path@)
}

proof fn lemma_collect_complete(kind: Kind, entries: Seq<MarkdownEntry>)
    requires
        forall|i: int|
            0 <= i < entries.len() && md_file(#[trigger] entries[i]) ==> skills::valid_name(
                md_pair(entries[i]).0,
            ),
    ensures
        collect_entries(kind, entries) == skills::Found::Ok(
            entries.filter(|e: MarkdownEntry| md_file(e)).map_values(|e: MarkdownEntry| md_pair(e)),
        ),
    decreases entries.len(),
{
    reveal(Seq::filter);
    if entries.len() == 0 {
        assert(entries.filter(|e: MarkdownEntry| md_file(e)) =~= Seq::<MarkdownEntry>::empty());
        assert(entries.filter(|e: MarkdownEntry| md_file(e)).map_values(|e: MarkdownEntry| md_pair(e))
            =~= Seq::<Item>::empty());
    } else {
        let rest = entries.drop_last();
        let last = entries.last();
        assert forall|i: int| 0 <= i < rest.len() && md_file(#[trigger] rest[i]) implies skills::valid_name(
            md_pair(rest[i]).0,
        ) by {
            assert(rest[i] == entries[i]);
        }
        lemma_collect_complete(kind, rest);
        assert(entries[entries.len() - 1] == last);
        let fr = rest.filter(|e: MarkdownEntry| md_file(e));
        if md_file(last) {
            assert(entries.filter(|e: MarkdownEntry| md_file(e)) == fr.push(last));
            assert(fr.push(last).map_values(|e: MarkdownEntry| md_pair(e)) =~= fr.map_values(
                |e: MarkdownEntry| md_pair(e),
            ).push(md_pair(last)));
        } else {
            assert(entries.filter(|e: MarkdownEntry| md_file(e)) == fr);
        }
    }
}

/// A listing is complete. Where every file of the directory that ends in
/// `.md` and is not `README.md` has a valid name (less its `.md` suffixes),
/// the listing succeeds, and its items are, as a multiset, exactly those
/// files' `(name, path)` pairs: none is dropped, none added, none doubled.
/// Where some such file has an invalid name, the listing fails.
pub proof fn lemma_listing_complete(kind: Kind, entries: Seq<MarkdownEntry>)
    ensures
        (forall|i: int|
            0 <= i < entries.len() && md_file(#[trigger] entries[i]) ==> skills::valid_name(
                md_pair(entries[i]).0,
            )) ==> (list_spec(kind, true, entries) matches Ok(items) && items.to_multiset()
            == entries.filter(|e: MarkdownEntry| md_file(e)).map_values(
            |e: MarkdownEntry| md_pair(e),
        ).to_multiset()),
        (exists|i: int|
            0 <= i < entries.len() && md_file(#[trigger] entries[i]) && !skills::valid_name(
                md_pair(entries[i]).0,
            )) ==> list_spec(kind, true, entries) is Err,
{
    if forall|i: int|
        0 <= i < entries.len() && md_file(#[trigger] entries[i]) ==> skills::valid_name(
            md_pair(entries[i]).0,
        ) {
        lemma_collect_complete(kind, entries);
        lemma_sort_by_name(
            entries.filter(|e: MarkdownEntry| md_file(e)).map_values(|e: MarkdownEntry| md_pair(e)),
        );
    } else {
        let i = choose|i: int|
            0 <= i < entries.len() && md_file(#[trigger] entries[i]) && !skills::valid_name(
                md_pair(entries[i]).0,
            );
        lemma_invalid_entry_fails(kind, entries, i);
    }
}

proof fn lemma_invalid_entry_fails(kind: Kind, entries: Seq<MarkdownEntry>, i: int)
    requires
        0 <= i < entries.len(),
        md_file(entries[i]),
        !skills::valid_name(md_pair(entries[i]).0),
    ensures
        collect_entries(kind, entries) is Err,
    decreases entries.len(),
{
    if i == entries.len() - 1 {
        assert(entries.last() == entries[i]);
    } else {
        assert(entries.drop_last()[i] == entries[i]);
        lemma_invalid_entry_fails(kind, entries.drop_last(), i);
    }
}

} // verus!
