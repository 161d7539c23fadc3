//! Laws of orders, directories and the names in them.

use crate::files::{
    asset_names, asset_names_of, concatenated, entry_names, files_of, files_under, insert_by_name,
    law_entries_in_name_order, ordered_asset_names, ordered_entry_names, ordered_lists, referred,
    texts, Entry, EntryKind,
};
use crate::order::{
    bytes_before, components, lemma_bytes_before_total, part_key, path_before, PathPart,
};
use vstd::prelude::*;

verus! {

/// Of two byte strings that are the same up to some byte, the one that ends
/// there or has the smaller byte there comes first.
pub proof fn law_byte_order(a: Seq<u8>, b: Seq<u8>, k: int)
    requires
        0 <= k <= a.len(),
        k < b.len(),
        forall|i: int| 0 <= i < k ==> a[i] == b[i],
        k == a.len() || a[k] < b[k],
    ensures
        bytes_before(a, b),
        !bytes_before(b, a),
    decreases k,
{
    if k > 0 {
        assert(a[0] == b[0]);
        law_byte_order(a.drop_first(), b.drop_first(), k - 1);
    }
    lemma_bytes_before_total(a, b);
}

/// No byte string comes before itself.
pub proof fn law_byte_order_is_strict(a: Seq<u8>)
    ensures
        !bytes_before(a, a),
{
    lemma_bytes_before_total(a, a);
}

/// Of two paths that are the same up to some component, the one that ends there
/// or has the smaller component there comes first.
pub proof fn law_path_order(a: Seq<Seq<u8>>, b: Seq<Seq<u8>>, k: int)
    requires
        0 <= k <= a.len(),
        k < b.len(),
        forall|i: int| 0 <= i < k ==> a[i] == b[i],
        k == a.len() || bytes_before(a[k], b[k]),
    ensures
        path_before(a, b),
        !path_before(b, a),
    decreases k,
{
    if k > 0 {
        assert(a[0] == b[0]);
        law_path_order(a.drop_first(), b.drop_first(), k - 1);
    } else if k < a.len() {
        lemma_bytes_before_total(a[0], b[0]);
    }
}

/// No path comes before itself.
pub proof fn law_path_order_is_strict(a: Seq<Seq<u8>>)
    ensures
        !path_before(a, a),
    decreases a.len(),
{
    if a.len() > 0 {
        law_path_order_is_strict(a.drop_first());
    }
}

/// The place of a part among parts of other kinds.
pub open spec fn rank(part: PathPart) -> int {
    match part {
        PathPart::Prefix(_) => 0,
        PathPart::RootDir => 1,
        PathPart::CurDir => 2,
        PathPart::ParentDir => 3,
        PathPart::Normal(_) => 4,
    }
}

/// The parts of paths are ordered by what they are: prefixes, the root, the
/// directory itself, the one that holds it, and names.
pub proof fn law_part_order(a: PathPart, b: PathPart)
    requires
        rank(a) < rank(b),
    ensures
        bytes_before(part_key(a), part_key(b)),
        !bytes_before(part_key(b), part_key(a)),
{
    law_byte_order(part_key(a), part_key(b), 0);
}

/// Two names, or two prefixes, are ordered by their bytes.
pub proof fn law_name_order(a: Vec<u8>, b: Vec<u8>)
    ensures
        bytes_before(part_key(PathPart::Normal(a)), part_key(PathPart::Normal(b)))
            == bytes_before(a@, b@),
        bytes_before(part_key(PathPart::Prefix(a)), part_key(PathPart::Prefix(b)))
            == bytes_before(a@, b@),
{
    let normal_a = part_key(PathPart::Normal(a));
    let normal_b = part_key(PathPart::Normal(b));
    assert(normal_a.drop_first() =~= a@);
    assert(normal_b.drop_first() =~= b@);
    let prefix_a = part_key(PathPart::Prefix(a));
    let prefix_b = part_key(PathPart::Prefix(b));
    assert(prefix_a.drop_first() =~= a@);
    assert(prefix_b.drop_first() =~= b@);
}

/// A path has a component for each of its parts.
pub proof fn law_components(path: Seq<PathPart>)
    ensures
        components(path).len() == path.len(),
        forall|i: int| 0 <= i < path.len() ==> components(path)[i] == part_key(#[trigger] path[i]),
{
}

/// Texts are taken by their characters, each in its place.
pub proof fn law_texts(strings: Seq<String>)
    ensures
        texts(strings).len() == strings.len(),
        forall|i: int| 0 <= i < strings.len() ==> texts(strings)[i] == (#[trigger] strings[i])@,
{
}

/// Paths are taken by what is referred to, each in its place.
pub proof fn law_referred<P>(paths: Seq<&P>)
    ensures
        referred(paths).len() == paths.len(),
        forall|i: int| 0 <= i < paths.len() ==> referred(paths)[i] == *(#[trigger] paths[i]),
{
}

/// A file stands for itself, and what is neither a file nor a directory, or a
/// directory that cannot be read, for no file.
pub proof fn law_single_files<P>(entry: Entry<P>)
    ensures
        entry.kind is File ==> files_under(entry) == seq![entry.path],
        entry.kind is Other ==> files_under(entry) == Seq::<P>::empty(),
        entry.kind matches EntryKind::Directory(None) ==> files_under(entry) == Seq::<P>::empty(),
{
}

/// A directory stands for the files of its first entries and then those of the
/// others, wherever it is divided; and with one entry for the files of that.
pub proof fn law_directory_files<P>(
    whole: Entry<P>,
    entries: Vec<Entry<P>>,
    left: Entry<P>,
    first: Vec<Entry<P>>,
    right: Entry<P>,
    second: Vec<Entry<P>>,
)
    requires
        whole.kind == EntryKind::<P>::Directory(Some(entries)),
        left.kind == EntryKind::<P>::Directory(Some(first)),
        right.kind == EntryKind::<P>::Directory(Some(second)),
        entries@ == first@ + second@,
    ensures
        files_under(whole) == files_under(left) + files_under(right),
        entries@.len() == 1 ==> files_under(whole) == files_under(entries@[0]),
        entries@.len() == 0 ==> files_under(whole) == Seq::<P>::empty(),
{
    lemma_files_first(first@, second@, first@.len());
    lemma_files_second(first@, second@, second@.len());
    if entries@.len() == 1 {
        assert(files_of(entries@, 0) =~= Seq::<P>::empty());
        assert(files_of(entries@, 1) =~= files_under(entries@[0]));
    }
}

proof fn lemma_files_first<P>(first: Seq<Entry<P>>, second: Seq<Entry<P>>, n: nat)
    requires
        n <= first.len(),
    ensures
        files_of(first + second, n) == files_of(first, n),
    decreases n,
{
    if n > 0 {
        lemma_files_first(first, second, (n - 1) as nat);
        assert((first + second)[n - 1] == first[n - 1]);
    }
}

proof fn lemma_files_second<P>(first: Seq<Entry<P>>, second: Seq<Entry<P>>, n: nat)
    requires
        n <= second.len(),
    ensures
        files_of(first + second, first.len() + n) == files_of(first, first.len()) + files_of(
            second,
            n,
        ),
    decreases n,
{
    if n > 0 {
        lemma_files_second(first, second, (n - 1) as nat);
        assert((first + second)[first.len() + n - 1] == second[n - 1]);
        assert(files_of(first, first.len()) + files_of(second, n) =~= (files_of(first, first.len())
            + files_of(second, (n - 1) as nat)) + files_under(second[n - 1]));
    } else {
        lemma_files_first(first, second, first.len());
        assert(files_of(first, first.len()) + files_of(second, 0) =~= files_of(first, first.len()));
    }
}

/// An entry on its own stands for its name, if that is text, or for what it
/// holds if it is a directory; and a directory that cannot be read for nothing.
pub proof fn law_single_asset<P>(entries: Vec<Entry<P>>)
    requires
        entries@.len() == 1,
    ensures
        entries@[0].kind matches EntryKind::Directory(inner) ==> asset_names(Some(entries))
            == asset_names(inner),
        !(entries@[0].kind is Directory) && entries@[0].text_name is Some ==> asset_names(
            Some(entries),
        ) == seq![entries@[0].text_name->0@],
        !(entries@[0].kind is Directory) && entries@[0].text_name is None ==> asset_names(
            Some(entries),
        ) == Seq::<Seq<char>>::empty(),
        asset_names(None::<Vec<Entry<P>>>) == Seq::<Seq<char>>::empty(),
{
    assert(asset_names_of(entries@, 0) =~= Seq::<Seq<char>>::empty());
    assert(asset_names_of(entries@, 1) =~= entry_names(entries@[0]));
}

/// A directory holds the names of its first entries and then those of the
/// others, wherever it is divided.
pub proof fn law_divided_assets<P>(
    entries: Vec<Entry<P>>,
    first: Vec<Entry<P>>,
    second: Vec<Entry<P>>,
)
    requires
        entries@ == first@ + second@,
    ensures
        asset_names(Some(entries)) == asset_names(Some(first)) + asset_names(Some(second)),
{
    lemma_names_second(first@, second@, second@.len());
}

proof fn lemma_names_first<P>(first: Seq<Entry<P>>, second: Seq<Entry<P>>, n: nat)
    requires
        n <= first.len(),
    ensures
        asset_names_of(first + second, n) == asset_names_of(first, n),
    decreases n,
{
    if n > 0 {
        lemma_names_first(first, second, (n - 1) as nat);
        assert((first + second)[n - 1] == first[n - 1]);
    }
}

proof fn lemma_names_second<P>(first: Seq<Entry<P>>, second: Seq<Entry<P>>, n: nat)
    requires
        n <= second.len(),
    ensures
        asset_names_of(first + second, first.len() + n) == asset_names_of(first, first.len())
            + asset_names_of(second, n),
    decreases n,
{
    if n > 0 {
        lemma_names_second(first, second, (n - 1) as nat);
        assert((first + second)[first.len() + n - 1] == second[n - 1]);
        assert(asset_names_of(first, first.len()) + asset_names_of(second, n) =~= (asset_names_of(
            first,
            first.len(),
        ) + asset_names_of(second, (n - 1) as nat)) + entry_names(second[n - 1]));
    } else {
        lemma_names_first(first, second, first.len());
        assert(asset_names_of(first, first.len()) + asset_names_of(second, 0) =~= asset_names_of(
            first,
            first.len(),
        ));
    }
}

/// What a directory offers for an entry: its name, if that is text, or what it
/// offers itself if it is a directory.
pub open spec fn offered_for<P>(entry: Entry<P>) -> Seq<Seq<char>> {
    match entry.kind {
        EntryKind::Directory(inner) => ordered_asset_names(inner),
        _ => match entry.text_name {
            Some(name) => seq![name@],
            None => Seq::empty(),
        },
    }
}

/// The names of several lists, one list after the other.
pub open spec fn one_by_one(lists: Seq<(Seq<u8>, Seq<Seq<char>>)>) -> Seq<Seq<char>>
    decreases lists.len(),
{
    if lists.len() == 0 {
        Seq::empty()
    } else {
        lists[0].1 + one_by_one(lists.drop_first())
    }
}

proof fn lemma_one_by_one_push(
    lists: Seq<(Seq<u8>, Seq<Seq<char>>)>,
    last: (Seq<u8>, Seq<Seq<char>>),
)
    ensures
        one_by_one(lists.push(last)) == one_by_one(lists) + last.1,
    decreases lists.len(),
{
    if lists.len() == 0 {
        assert(lists.push(last).drop_first() =~= lists);
        assert(one_by_one(lists.push(last)) =~= one_by_one(lists) + last.1);
    } else {
        assert(lists.push(last).drop_first() =~= lists.drop_first().push(last));
        lemma_one_by_one_push(lists.drop_first(), last);
        assert(lists[0].1 + (one_by_one(lists.drop_first()) + last.1) =~= one_by_one(lists)
            + last.1);
    }
}

proof fn lemma_concatenated(lists: Seq<(Seq<u8>, Seq<Seq<char>>)>)
    ensures
        concatenated(lists) == one_by_one(lists),
    decreases lists.len(),
{
    if lists.len() > 0 {
        lemma_concatenated(lists.drop_last());
        lemma_one_by_one_push(lists.drop_last(), lists.last());
        assert(lists.drop_last().push(lists.last()) =~= lists);
    }
}

proof fn lemma_insert_keeps_all(
    lists: Seq<(Seq<u8>, Seq<Seq<char>>)>,
    new: (Seq<u8>, Seq<Seq<char>>),
)
    ensures
        insert_by_name(lists, new).to_multiset() == lists.to_multiset().insert(new),
    decreases lists.len(),
{
    broadcast use vstd::seq_lib::group_to_multiset_ensures;

    if lists.len() == 0 || !bytes_before(new.0, lists.last().0) {
    } else {
        lemma_insert_keeps_all(lists.drop_last(), new);
        assert(lists.drop_last().push(lists.last()) =~= lists);
        assert(lists.to_multiset().insert(new) =~= lists.drop_last().to_multiset().insert(
            new,
        ).insert(lists.last()));
    }
}

proof fn lemma_lists_of_entries<P>(entries: Seq<Entry<P>>, n: nat)
    requires
        n <= entries.len(),
    ensures
        ordered_lists(entries, n).to_multiset() == entries.take(n as int).map_values(
            |entry: Entry<P>| (entry.name@, offered_for(entry)),
        ).to_multiset(),
    decreases n,
{
    broadcast use vstd::seq_lib::group_to_multiset_ensures;

    let lists = entries.take(n as int).map_values(
        |entry: Entry<P>| (entry.name@, offered_for(entry)),
    );
    if n > 0 {
        let entry = entries[n - 1];
        let before = entries.take(n - 1).map_values(
            |entry: Entry<P>| (entry.name@, offered_for(entry)),
        );
        lemma_lists_of_entries(entries, (n - 1) as nat);
        lemma_insert_keeps_all(
            ordered_lists(entries, (n - 1) as nat),
            (entry.name@, ordered_entry_names(entry)),
        );
        assert(ordered_entry_names(entry) == offered_for(entry));
        assert(lists =~= before.push((entry.name@, offered_for(entry))));
    } else {
        assert(lists =~= Seq::empty());
    }
}

/// The asset names in order are those of the entries of the directory, each
/// entry as often as the directory has it, sorted by the names of the entries.
pub proof fn law_assets_in_order<P>(entries: Vec<Entry<P>>) -> (lists: Seq<
    (Seq<u8>, Seq<Seq<char>>),
>)
    ensures
        ordered_asset_names(Some(entries)) == one_by_one(lists),
        lists.to_multiset() == entries@.map_values(
            |entry: Entry<P>| (entry.name@, offered_for(entry)),
        ).to_multiset(),
        forall|i: int, j: int|
            0 <= i < j < lists.len() ==> !bytes_before(
                (#[trigger] lists[j]).0,
                (#[trigger] lists[i]).0,
            ),
        ordered_asset_names(None::<Vec<Entry<P>>>) == Seq::<Seq<char>>::empty(),
{
    let lists = ordered_lists(entries@, entries@.len());
    lemma_lists_of_entries(entries@, entries@.len());
    assert(entries@.take(entries@.len() as int) =~= entries@);
    law_entries_in_name_order(entries@, entries@.len());
    lemma_concatenated(lists);
    lists
}

} // verus!
