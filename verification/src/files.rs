//! What stands in the directories of a project.

use crate::order::{
    bytes_before, lemma_bytes_before_total, lemma_bytes_before_transitive, place_bytes, Place,
};
use vstd::prelude::*;

verus! {

/// What an entry of a directory is.
#[derive(Debug, PartialEq, Eq)]
#[verifier::reject_recursive_types(P)]
pub enum EntryKind<P> {
    /// A file.
    File,
    /// A directory, with its entries if it can be read.
    Directory(Option<Vec<Entry<P>>>),
    /// Neither a file nor a directory.
    Other,
}

/// An entry of a directory.
#[derive(Debug, PartialEq, Eq)]
#[verifier::reject_recursive_types(P)]
pub struct Entry<P> {
    /// The path under which the entry is reached.
    pub path: P,
    /// The bytes of the file name, by which entries are ordered.
    pub name: Vec<u8>,
    /// The file name, if it is well-formed text.
    pub text_name: Option<String>,
    pub kind: EntryKind<P>,
}

/// The files under an entry: itself, or those under its entries.
pub open spec fn files_under<P>(entry: Entry<P>) -> Seq<P>
    decreases entry, 0nat,
{
    match entry.kind {
        EntryKind::File => seq![entry.path],
        EntryKind::Directory(Some(entries)) => files_of(entries@, entries@.len()),
        _ => Seq::empty(),
    }
}

/// The files under the first `n` entries.
pub open spec fn files_of<P>(entries: Seq<Entry<P>>, n: nat) -> Seq<P>
    decreases entries, n,
{
    if n == 0 || n > entries.len() {
        Seq::empty()
    } else {
        files_of(entries, (n - 1) as nat) + files_under(entries[n - 1])
    }
}

/// The paths that are referred to.
pub open spec fn referred<P>(paths: Seq<&P>) -> Seq<P> {
    paths.map_values(|path: &P| *path)
}

/// Adds the paths of the files under an entry.
pub fn collect_files<'a, P>(entry: &'a Entry<P>, out: &mut Vec<&'a P>)
    ensures
        referred(final(out)@) == referred(old(out)@) + files_under(*entry),
    decreases entry,
{
    match &entry.kind {
        EntryKind::File => {
            out.push(&entry.path);
            proof {
                assert(referred(out@) =~= referred(old(out)@) + files_under(*entry));
            }
        },
        EntryKind::Directory(Some(entries)) => {
            let mut i: usize = 0;
            proof {
                assert(referred(out@) =~= referred(old(out)@) + files_of(entries@, 0));
            }
            while i < entries.len()
                invariant
                    i <= entries@.len(),
                    entry.kind == EntryKind::<P>::Directory(Some(*entries)),
                    referred(out@) == referred(old(out)@) + files_of(entries@, i as nat),
                decreases entries@.len() - i,
            {
                let ghost before = referred(out@);
                assert(decreases_to!(*entry => entries@[i as int])) by {
                    assert(decreases_to!(entries@ => entries@[i as int]));
                    assert(decreases_to!(*entries => entries@));
                    assert(decreases_to!(entry.kind->Directory_0 => entry.kind->Directory_0->0));
                    assert(decreases_to!(entry.kind => entry.kind->Directory_0));
                    assert(decreases_to!(*entry => entry.kind));
                }
                collect_files(&entries[i], out);
                proof {
                    assert(before + files_under(entries@[i as int]) =~= referred(old(out)@)
                        + files_of(entries@, (i + 1) as nat));
                }
                i += 1;
            }
        },
        _ => {
            proof {
                assert(referred(out@) =~= referred(old(out)@) + files_under(*entry));
            }
        },
    }
}

/// Where the files of a project are.
#[derive(Debug, PartialEq, Eq)]
#[verifier::reject_recursive_types(P)]
pub struct ProjectTree<P> {
    pub scripts: Entry<P>,
    /// The packages that the project uses.
    pub packages: Entry<P>,
    pub scenes: Entry<P>,
    /// The path of the input map, whether or not there is one.
    pub input_map: P,
    pub assets: Entry<P>,
}

/// The paths of the files in which definitions are looked for: the scripts,
/// those of the packages, the scenes, the input map and the assets.
pub fn definition_files<'a, P>(tree: &'a ProjectTree<P>) -> (res: Vec<&'a P>)
    ensures
        referred(res@) == files_under(tree.scripts) + files_under(tree.packages) + files_under(
            tree.scenes,
        ) + seq![tree.input_map] + files_under(tree.assets),
{
    let mut out: Vec<&'a P> = Vec::new();
    proof {
        assert(referred(out@) + files_under(tree.scripts) =~= files_under(tree.scripts));
    }
    collect_files(&tree.scripts, &mut out);
    collect_files(&tree.packages, &mut out);
    collect_files(&tree.scenes, &mut out);
    let ghost before = out@;
    out.push(&tree.input_map);
    proof {
        assert(referred(out@) =~= referred(before) + seq![tree.input_map]);
    }
    collect_files(&tree.assets, &mut out);
    out
}

/// The characters of each of several texts.
pub open spec fn texts(strings: Seq<String>) -> Seq<Seq<char>> {
    strings.map_values(|string: String| string@)
}

/// The asset names that a directory holds, itself and in its directories, in
/// the order in which it lists its entries.
pub open spec fn asset_names<P>(directory: Option<Vec<Entry<P>>>) -> Seq<Seq<char>>
    decreases directory, 0nat,
{
    match directory {
        Some(entries) => asset_names_of(entries@, entries@.len()),
        None => Seq::empty(),
    }
}

/// The asset names that an entry stands for: those in it if it is a directory,
/// and else its own name, if that is well-formed text.
pub open spec fn entry_names<P>(entry: Entry<P>) -> Seq<Seq<char>>
    decreases entry, 0nat,
{
    match entry.kind {
        EntryKind::Directory(directory) => asset_names(directory),
        _ => match entry.text_name {
            Some(name) => seq![name@],
            None => Seq::empty(),
        },
    }
}

/// The asset names that the first `n` entries stand for.
pub open spec fn asset_names_of<P>(entries: Seq<Entry<P>>, n: nat) -> Seq<Seq<char>>
    decreases entries, n,
{
    if n == 0 || n > entries.len() {
        Seq::empty()
    } else {
        asset_names_of(entries, (n - 1) as nat) + entry_names(entries[n - 1])
    }
}

/// An entry of a directory is smaller than the directory.
proof fn lemma_entry_decreases<P>(directory: Option<Vec<Entry<P>>>, i: int)
    requires
        directory is Some,
        0 <= i < directory->0@.len(),
        directory->0@[i].kind is Directory,
    ensures
        decreases_to!(directory => directory->0@[i].kind->Directory_0),
{
    let entries = directory->0@;
    assert(decreases_to!(entries[i].kind => entries[i].kind->Directory_0));
    assert(decreases_to!(entries[i] => entries[i].kind));
    assert(decreases_to!(entries => entries[i]));
    assert(decreases_to!(directory->0 => directory->0@));
    assert(decreases_to!(directory => directory->0));
}

/// Adds the asset names that a directory holds, itself and in its directories.
pub fn collect_asset_names<P>(directory: &Option<Vec<Entry<P>>>, out: &mut Vec<String>)
    ensures
        texts(final(out)@) == texts(old(out)@) + asset_names(*directory),
    decreases directory,
{
    let entries: &Vec<Entry<P>> = match directory {
        Some(entries) => entries,
        None => {
            assert(texts(out@) =~= texts(old(out)@) + asset_names(*directory));
            return;
        },
    };
    let mut i: usize = 0;
    proof {
        assert(texts(out@) =~= texts(old(out)@) + asset_names_of(entries@, 0));
    }
    while i < entries.len()
        invariant
            i <= entries@.len(),
            *directory == Some(*entries),
            texts(out@) == texts(old(out)@) + asset_names_of(entries@, i as nat),
        decreases entries@.len() - i,
    {
        let ghost before = texts(out@);
        match &entries[i].kind {
            EntryKind::Directory(inner) => {
                proof {
                    lemma_entry_decreases(*directory, i as int);
                }
                collect_asset_names(inner, out);
            },
            _ => {
                if let Some(name) = &entries[i].text_name {
                    out.push(name.clone());
                }
            },
        }
        proof {
            assert(texts(out@) =~= before + entry_names(entries@[i as int]));
            assert(before + entry_names(entries@[i as int]) =~= texts(old(out)@) + asset_names_of(
                entries@,
                (i + 1) as nat,
            ));
        }
        i += 1;
    }
}

/// Puts a named list among others that are in the order of their names, behind
/// those that do not come after it.
pub open spec fn insert_by_name(
    lists: Seq<(Seq<u8>, Seq<Seq<char>>)>,
    new: (Seq<u8>, Seq<Seq<char>>),
) -> Seq<(Seq<u8>, Seq<Seq<char>>)>
    decreases lists.len(),
{
    if lists.len() == 0 || !bytes_before(new.0, lists.last().0) {
        lists.push(new)
    } else {
        insert_by_name(lists.drop_last(), new).push(lists.last())
    }
}

/// All that several lists hold, one list after the other.
pub open spec fn concatenated(lists: Seq<(Seq<u8>, Seq<Seq<char>>)>) -> Seq<Seq<char>>
    decreases lists.len(),
{
    if lists.len() == 0 {
        Seq::empty()
    } else {
        concatenated(lists.drop_last()) + lists.last().1
    }
}

/// The asset names that a directory holds, in the order of the entry names.
pub open spec fn ordered_asset_names<P>(directory: Option<Vec<Entry<P>>>) -> Seq<Seq<char>>
    decreases directory, 0nat,
{
    match directory {
        Some(entries) => concatenated(ordered_lists(entries@, entries@.len())),
        None => Seq::empty(),
    }
}

/// The asset names that an entry stands for, those in a directory in the order
/// of their names.
pub open spec fn ordered_entry_names<P>(entry: Entry<P>) -> Seq<Seq<char>>
    decreases entry, 0nat,
{
    match entry.kind {
        EntryKind::Directory(directory) => ordered_asset_names(directory),
        _ => match entry.text_name {
            Some(name) => seq![name@],
            None => Seq::empty(),
        },
    }
}

/// What each of the first `n` entries stands for, in the order of the names of
/// the entries.
pub open spec fn ordered_lists<P>(entries: Seq<Entry<P>>, n: nat) -> Seq<
    (Seq<u8>, Seq<Seq<char>>),
>
    decreases entries, n,
{
    if n == 0 || n > entries.len() {
        Seq::empty()
    } else {
        insert_by_name(
            ordered_lists(entries, (n - 1) as nat),
            (entries[n - 1].name@, ordered_entry_names(entries[n - 1])),
        )
    }
}

/// Named lists, with the characters of what they hold.
pub open spec fn named_lists(lists: Seq<(&Vec<u8>, Vec<String>)>) -> Seq<
    (Seq<u8>, Seq<Seq<char>>),
> {
    lists.map_values(|list: (&Vec<u8>, Vec<String>)| (list.0@, texts(list.1@)))
}

/// Puts a named list among others that are in the order of their names.
fn insert_list<'a>(lists: &mut Vec<(&'a Vec<u8>, Vec<String>)>, new: (&'a Vec<u8>, Vec<String>))
    ensures
        named_lists(final(lists)@) == insert_by_name(
            named_lists(old(lists)@),
            (new.0@, texts(new.1@)),
        ),
{
    let ghost before = named_lists(lists@);
    let ghost item = (new.0@, texts(new.1@));
    let mut k: usize = lists.len();
    proof {
        assert(before.take(k as int) =~= before);
        assert(insert_by_name(before, item) =~= insert_by_name(before.take(k as int), item)
            + before.skip(k as int));
    }
    while k > 0
        invariant
            k <= lists@.len(),
            *lists == *old(lists),
            before == named_lists(lists@),
            item == (new.0@, texts(new.1@)),
            insert_by_name(before, item) == insert_by_name(before.take(k as int), item)
                + before.skip(k as int),
        decreases k,
    {
        let ghost head = before.take(k as int);
        assert(head.last() == (lists@[k - 1].0@, texts(lists@[k - 1].1@)));
        match place_bytes(new.0.as_slice(), lists[k - 1].0.as_slice()) {
            Place::Before => {},
            _ => {
                proof {
                    lemma_bytes_before_total(item.0, head.last().0);
                    assert(insert_by_name(before, item) =~= before.insert(k as int, item));
                }
                lists.insert(k, new);
                proof {
                    assert(named_lists(lists@) =~= before.insert(k as int, item));
                }
                return;
            },
        }
        proof {
            assert(head.drop_last() =~= before.take(k - 1));
            assert(insert_by_name(before.take(k - 1), item).push(head.last()) + before.skip(k as int)
                =~= insert_by_name(before.take(k - 1), item) + before.skip(k - 1));
        }
        k -= 1;
    }
    proof {
        assert(before.take(0) =~= Seq::empty());
        assert(insert_by_name(before, item) =~= before.insert(0, item));
    }
    lists.insert(0, new);
    proof {
        assert(named_lists(lists@) =~= before.insert(0, item));
    }
}

/// Adds copies of several texts behind others.
fn append_texts(from: &Vec<String>, out: &mut Vec<String>)
    ensures
        texts(final(out)@) == texts(old(out)@) + texts(from@),
{
    let mut i: usize = 0;
    let ghost before = texts(out@);
    let ghost list = texts(from@);
    proof {
        assert(before =~= before + list.take(0));
    }
    while i < from.len()
        invariant
            i <= from@.len(),
            list == texts(from@),
            texts(out@) == before + list.take(i as int),
        decreases from@.len() - i,
    {
        let ghost prior = out@;
        let text: String = from[i].clone();
        out.push(text);
        proof {
            assert(texts(out@) =~= texts(prior).push(list[i as int]));
            assert(list.take(i + 1) =~= list.take(i as int).push(list[i as int]));
            assert(texts(out@) =~= before + list.take(i + 1));
        }
        i += 1;
    }
    proof {
        assert(list.take(list.len() as int) =~= list);
    }
}

/// The asset names that a directory holds, in the order of the entry names.
pub fn asset_names_in_order<P>(directory: &Option<Vec<Entry<P>>>) -> (res: Vec<String>)
    ensures
        texts(res@) == ordered_asset_names(*directory),
    decreases directory,
{
    let mut out: Vec<String> = Vec::new();
    let entries: &Vec<Entry<P>> = match directory {
        Some(entries) => entries,
        None => {
            assert(texts(out@) =~= Seq::empty());
            return out;
        },
    };
    let mut lists: Vec<(&Vec<u8>, Vec<String>)> = Vec::new();
    let mut i: usize = 0;
    proof {
        assert(named_lists(lists@) =~= ordered_lists(entries@, 0));
    }
    while i < entries.len()
        invariant
            i <= entries@.len(),
            *directory == Some(*entries),
            named_lists(lists@) == ordered_lists(entries@, i as nat),
        decreases entries@.len() - i,
    {
        let names: Vec<String> = match &entries[i].kind {
            EntryKind::Directory(inner) => {
                proof {
                    lemma_entry_decreases(*directory, i as int);
                }
                asset_names_in_order(inner)
            },
            _ => {
                let mut names: Vec<String> = Vec::new();
                if let Some(name) = &entries[i].text_name {
                    names.push(name.clone());
                }
                assert(texts(names@) =~= ordered_entry_names(entries@[i as int]));
                names
            },
        };
        proof {
            assert(texts(names@) == ordered_entry_names(entries@[i as int]));
        }
        insert_list(&mut lists, (&entries[i].name, names));
        i += 1;
    }
    let ghost all = named_lists(lists@);
    let mut l: usize = 0;
    proof {
        assert(texts(out@) =~= concatenated(all.take(0)));
    }
    while l < lists.len()
        invariant
            l <= lists@.len(),
            all == named_lists(lists@),
            texts(out@) == concatenated(all.take(l as int)),
        decreases lists@.len() - l,
    {
        append_texts(&lists[l].1, &mut out);
        proof {
            let more = all.take(l + 1);
            assert(more.drop_last() =~= all.take(l as int));
            assert(more.last().1 == texts(lists@[l as int].1@));
        }
        l += 1;
    }
    proof {
        assert(all.take(all.len() as int) =~= all);
    }
    out
}

/// Whether one of the lists holds a name.
pub open spec fn holds(lists: Seq<(Seq<u8>, Seq<Seq<char>>)>, name: Seq<char>) -> bool {
    exists|i: int| 0 <= i < lists.len() && (#[trigger] lists[i]).1.contains(name)
}

proof fn lemma_contains_either(a: Seq<Seq<char>>, b: Seq<Seq<char>>, name: Seq<char>)
    ensures
        (a + b).contains(name) <==> a.contains(name) || b.contains(name),
{
    if a.contains(name) {
        let i = choose|i: int| 0 <= i < a.len() && a[i] == name;
        assert((a + b)[i] == name);
    }
    if b.contains(name) {
        let i = choose|i: int| 0 <= i < b.len() && b[i] == name;
        assert((a + b)[a.len() + i] == name);
    }
    if (a + b).contains(name) {
        let i = choose|i: int| 0 <= i < (a + b).len() && (a + b)[i] == name;
        if i < a.len() {
            assert(a[i] == name);
        } else {
            assert(b[i - a.len()] == name);
        }
    }
}

proof fn lemma_holds_push(
    lists: Seq<(Seq<u8>, Seq<Seq<char>>)>,
    new: (Seq<u8>, Seq<Seq<char>>),
    name: Seq<char>,
)
    ensures
        holds(lists.push(new), name) <==> holds(lists, name) || new.1.contains(name),
{
    let more = lists.push(new);
    if holds(lists, name) {
        let i = choose|i: int| 0 <= i < lists.len() && (#[trigger] lists[i]).1.contains(name);
        assert(more[i].1.contains(name));
    }
    if new.1.contains(name) {
        assert(more[lists.len() as int].1.contains(name));
    }
    if holds(more, name) {
        let i = choose|i: int| 0 <= i < more.len() && (#[trigger] more[i]).1.contains(name);
        if i < lists.len() {
            assert(lists[i].1.contains(name));
        }
    }
}

proof fn lemma_holds_insert(
    lists: Seq<(Seq<u8>, Seq<Seq<char>>)>,
    new: (Seq<u8>, Seq<Seq<char>>),
    name: Seq<char>,
)
    ensures
        holds(insert_by_name(lists, new), name) <==> holds(lists, name) || new.1.contains(name),
    decreases lists.len(),
{
    if lists.len() == 0 || !bytes_before(new.0, lists.last().0) {
        lemma_holds_push(lists, new, name);
    } else {
        lemma_holds_insert(lists.drop_last(), new, name);
        lemma_holds_push(insert_by_name(lists.drop_last(), new), lists.last(), name);
        lemma_holds_push(lists.drop_last(), lists.last(), name);
        assert(lists.drop_last().push(lists.last()) =~= lists);
    }
}

proof fn lemma_concatenated_holds(lists: Seq<(Seq<u8>, Seq<Seq<char>>)>, name: Seq<char>)
    ensures
        concatenated(lists).contains(name) <==> holds(lists, name),
    decreases lists.len(),
{
    if lists.len() > 0 {
        lemma_concatenated_holds(lists.drop_last(), name);
        lemma_contains_either(concatenated(lists.drop_last()), lists.last().1, name);
        lemma_holds_push(lists.drop_last(), lists.last(), name);
        assert(lists.drop_last().push(lists.last()) =~= lists);
    }
}

proof fn lemma_same_names_of<P>(entries: Seq<Entry<P>>, n: nat, name: Seq<char>)
    requires
        n <= entries.len(),
    ensures
        holds(ordered_lists(entries, n), name) <==> asset_names_of(entries, n).contains(name),
    decreases entries, n,
{
    if n > 0 {
        let entry = entries[n - 1];
        lemma_same_names_of(entries, (n - 1) as nat, name);
        lemma_holds_insert(
            ordered_lists(entries, (n - 1) as nat),
            (entry.name@, ordered_entry_names(entry)),
            name,
        );
        lemma_contains_either(
            asset_names_of(entries, (n - 1) as nat),
            entry_names(entry),
            name,
        );
        if let EntryKind::Directory(directory) = entry.kind {
            law_same_asset_names(directory, name);
        }
    }
}

/// The asset names in order are those that the directory holds, and no others.
pub proof fn law_same_asset_names<P>(directory: Option<Vec<Entry<P>>>, name: Seq<char>)
    ensures
        ordered_asset_names(directory).contains(name) <==> asset_names(directory).contains(name),
    decreases directory, 0nat,
{
    if let Some(entries) = directory {
        lemma_same_names_of(entries@, entries@.len(), name);
        lemma_concatenated_holds(ordered_lists(entries@, entries@.len()), name);
    }
}

/// Whether no list stands behind one whose name comes after its own.
pub open spec fn in_name_order(lists: Seq<(Seq<u8>, Seq<Seq<char>>)>) -> bool {
    forall|i: int, j: int|
        0 <= i < j < lists.len() ==> !bytes_before((#[trigger] lists[j]).0, (#[trigger] lists[i]).0)
}

/// A list that is put among lists in order stands in order, and comes before
/// nothing but what comes after it or stood there.
proof fn lemma_insert_in_order(
    lists: Seq<(Seq<u8>, Seq<Seq<char>>)>,
    new: (Seq<u8>, Seq<Seq<char>>),
)
    requires
        in_name_order(lists),
    ensures
        in_name_order(insert_by_name(lists, new)),
        forall|i: int|
            0 <= i < insert_by_name(lists, new).len() ==> #[trigger] insert_by_name(lists, new)[i]
                == new || lists.contains(insert_by_name(lists, new)[i]),
    decreases lists.len(),
{
    let more = insert_by_name(lists, new);
    if lists.len() == 0 || !bytes_before(new.0, lists.last().0) {
        assert forall|i: int, j: int| 0 <= i < j < more.len() implies !bytes_before(
            (#[trigger] more[j]).0,
            (#[trigger] more[i]).0,
        ) by {
            if j == lists.len() {
                lemma_bytes_before_total(new.0, lists[i].0);
                lemma_bytes_before_total(new.0, lists.last().0);
                lemma_bytes_before_total(lists[i].0, lists.last().0);
                if bytes_before(new.0, lists[i].0) {
                    if i < lists.len() - 1 {
                        assert(!bytes_before(lists[lists.len() - 1].0, lists[i].0));
                        if lists[i].0 != lists.last().0 {
                            lemma_bytes_before_transitive(new.0, lists[i].0, lists.last().0);
                        }
                    }
                }
            } else {
                assert(more[i] == lists[i] && more[j] == lists[j]);
            }
        }
        assert forall|i: int| 0 <= i < more.len() implies #[trigger] more[i] == new
            || lists.contains(more[i]) by {
            if i < lists.len() {
                assert(lists[i] == more[i]);
            }
        }
    } else {
        let rest = lists.drop_last();
        let inner = insert_by_name(rest, new);
        lemma_insert_in_order(rest, new);
        assert forall|i: int| 0 <= i < more.len() implies #[trigger] more[i] == new
            || lists.contains(more[i]) by {
            if i < inner.len() {
                assert(more[i] == inner[i]);
                if inner[i] != new {
                    let k = choose|k: int| 0 <= k < rest.len() && rest[k] == inner[i];
                    assert(lists[k] == inner[i]);
                }
            } else {
                assert(more[i] == lists[lists.len() - 1]);
            }
        }
        assert forall|i: int, j: int| 0 <= i < j < more.len() implies !bytes_before(
            (#[trigger] more[j]).0,
            (#[trigger] more[i]).0,
        ) by {
            assert(more[i] == inner[i]);
            if j == inner.len() {
                lemma_bytes_before_total(new.0, lists.last().0);
                if inner[i] != new {
                    let k = choose|k: int| 0 <= k < rest.len() && rest[k] == inner[i];
                    assert(lists[k] == inner[i]);
                    assert(!bytes_before(lists[lists.len() - 1].0, lists[k].0));
                }
            } else {
                assert(more[j] == inner[j]);
            }
        }
    }
}

/// What the entries of a directory stand for comes in the order of their names.
pub proof fn law_entries_in_name_order<P>(entries: Seq<Entry<P>>, n: nat)
    ensures
        in_name_order(ordered_lists(entries, n)),
    decreases n,
{
    if n > 0 && n <= entries.len() {
        law_entries_in_name_order(entries, (n - 1) as nat);
        lemma_insert_in_order(
            ordered_lists(entries, (n - 1) as nat),
            (entries[n - 1].name@, ordered_entry_names(entries[n - 1])),
        );
    }
}

} // verus!
