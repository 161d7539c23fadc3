//! What is offered to complete the text at the cursor.

use crate::bytes::{joined, lemma_same_encoding, same_text};
use crate::engine::{
    engine_detail, engine_names, first_named, is_named, lemma_engine_name_found,
    lemma_engine_names_distinct, lemma_first_named, names, ENGINE_SYMBOLS,
};
use crate::files::{asset_names_in_order, ordered_asset_names, texts, Entry};
use crate::order::{
    bytes_before, lemma_bytes_before_total, lemma_bytes_before_transitive, place_bytes, Place,
};
use crate::position::Position;
use crate::syntax::{Field, Item, Member, Module};
use crate::words::{word_at, word_under};
use vstd::prelude::*;
use vstd::utf8::encode_utf8;

verus! {

/// What a completion stands for.
#[derive(Clone, Copy, Debug, PartialEq, Eq, Structural)]
pub enum CompletionItemKind {
    Class,
    Event,
    Field,
    File,
    Function,
    Method,
}

/// A text that is offered, with what it is.
#[derive(Debug, PartialEq, Eq)]
pub struct CompletionItem {
    pub label: String,
    pub kind: CompletionItemKind,
    pub detail: String,
}

/// A completion, with the characters of its texts.
pub struct ItemView {
    pub label: Seq<char>,
    pub kind: CompletionItemKind,
    pub detail: Seq<char>,
}

impl View for CompletionItem {
    type V = ItemView;

    open spec fn view(&self) -> ItemView {
        ItemView { label: self.label@, kind: self.kind, detail: self.detail@ }
    }
}

/// Several completions, with the characters of their texts.
pub open spec fn items_of(items: Seq<CompletionItem>) -> Seq<ItemView> {
    items.map_values(|item: CompletionItem| item@)
}

/// A completion of each of several labels, all of a kind.
pub open spec fn labelled(
    labels: Seq<Seq<char>>,
    kind: CompletionItemKind,
    detail: Seq<char>,
) -> Seq<ItemView> {
    labels.map_values(|label: Seq<char>| ItemView { label, kind, detail })
}

/// A completion of a label.
pub fn completion(label: &str, kind: CompletionItemKind, detail: &str) -> (res: CompletionItem)
    ensures
        res@ == (ItemView { label: label@, kind, detail: detail@ }),
{
    CompletionItem { label: label.to_owned(), kind, detail: detail.to_owned() }
}

/// Adds a completion behind others.
fn offer(label: &str, kind: CompletionItemKind, detail: &str, out: &mut Vec<CompletionItem>)
    ensures
        items_of(final(out)@) == items_of(old(out)@).push(
            ItemView { label: label@, kind, detail: detail@ },
        ),
{
    let item: CompletionItem = completion(label, kind, detail);
    out.push(item);
    proof {
        assert(items_of(out@) =~= items_of(old(out)@).push(
            ItemView { label: label@, kind, detail: detail@ },
        ));
    }
}

/// Adds a completion of each of several labels, all of a kind.
fn offer_all(
    labels: &Vec<String>,
    kind: CompletionItemKind,
    detail: &str,
    out: &mut Vec<CompletionItem>,
)
    ensures
        items_of(final(out)@) == items_of(old(out)@) + labelled(texts(labels@), kind, detail@),
{
    let ghost before = items_of(out@);
    let ghost all = labelled(texts(labels@), kind, detail@);
    let mut i: usize = 0;
    proof {
        assert(before =~= before + all.take(0));
    }
    while i < labels.len()
        invariant
            i <= labels@.len(),
            all == labelled(texts(labels@), kind, detail@),
            items_of(out@) == before + all.take(i as int),
        decreases labels@.len() - i,
    {
        offer(labels[i].as_str(), kind, detail, out);
        proof {
            assert(all.take(i + 1) =~= all.take(i as int).push(all[i as int]));
            assert(before + all.take(i + 1) =~= (before + all.take(i as int)).push(all[i as int]));
        }
        i += 1;
    }
    proof {
        assert(all.take(all.len() as int) =~= all);
    }
}

/// Whether scenes can set a field.
pub open spec fn is_exported(field: Field) -> bool {
    texts(field.attributes@).contains("export"@)
}

/// What is offered for a member of a class.
pub open spec fn member_items(member: Member) -> Seq<ItemView> {
    match member {
        Member::Field(field) => seq![
            ItemView {
                label: field.name@,
                kind: CompletionItemKind::Field,
                detail: if is_exported(field) {
                    "exported scene property"@
                } else {
                    "class field"@
                },
            },
        ],
        Member::Function(function) => seq![
            ItemView {
                label: function.name@,
                kind: CompletionItemKind::Method,
                detail: "class method"@,
            },
        ],
        Member::Signal(signal) => seq![
            ItemView {
                label: signal.name@,
                kind: CompletionItemKind::Event,
                detail: "typed signal"@,
            },
        ],
        Member::Class => Seq::empty(),
    }
}

/// What is offered for the first `n` members of a class.
pub open spec fn members_items(members: Seq<Member>, n: nat) -> Seq<ItemView>
    decreases n,
{
    if n == 0 {
        Seq::empty()
    } else {
        members_items(members, (n - 1) as nat) + member_items(members[n - 1])
    }
}

/// What is offered for a declaration of a script: a function, or the members
/// of a class.
pub open spec fn item_items(item: Item) -> Seq<ItemView> {
    match item {
        Item::Class(class) => members_items(class.members@, class.members@.len()),
        Item::Function(function) => seq![
            ItemView {
                label: function.name@,
                kind: CompletionItemKind::Function,
                detail: "project function"@,
            },
        ],
        Item::Other => Seq::empty(),
    }
}

/// What is offered for the first `n` declarations of a script.
pub open spec fn module_items(items: Seq<Item>, n: nat) -> Seq<ItemView>
    decreases n,
{
    if n == 0 {
        Seq::empty()
    } else {
        module_items(items, (n - 1) as nat) + item_items(items[n - 1])
    }
}

/// Whether scenes can set a field.
fn has_export(field: &Field) -> (res: bool)
    ensures
        res == is_exported(*field),
{
    let ghost names = texts(field.attributes@);
    let mut i: usize = 0;
    while i < field.attributes.len()
        invariant
            i <= field.attributes@.len(),
            names == texts(field.attributes@),
            forall|k: int| 0 <= k < i ==> names[k] != "export"@,
        decreases field.attributes@.len() - i,
    {
        assert(names[i as int] == field.attributes@[i as int]@);
        if same_text(field.attributes[i].as_str(), "export") {
            return true;
        }
        i += 1;
    }
    false
}

/// Adds what is offered for the members of a class.
fn collect_member_completions(members: &Vec<Member>, out: &mut Vec<CompletionItem>)
    ensures
        items_of(final(out)@) == items_of(old(out)@) + members_items(members@, members@.len()),
{
    let ghost before = items_of(out@);
    let mut i: usize = 0;
    proof {
        assert(before =~= before + members_items(members@, 0));
    }
    while i < members.len()
        invariant
            i <= members@.len(),
            items_of(out@) == before + members_items(members@, i as nat),
        decreases members@.len() - i,
    {
        let ghost prior = items_of(out@);
        match &members[i] {
            Member::Field(field) => {
                let detail: &str = if has_export(field) {
                    "exported scene property"
                } else {
                    "class field"
                };
                offer(field.name.as_str(), CompletionItemKind::Field, detail, out);
            },
            Member::Function(function) => {
                offer(function.name.as_str(), CompletionItemKind::Method, "class method", out);
            },
            Member::Signal(signal) => {
                offer(signal.name.as_str(), CompletionItemKind::Event, "typed signal", out);
            },
            Member::Class => {},
        }
        proof {
            assert(items_of(out@) =~= prior + member_items(members@[i as int]));
            assert(prior + member_items(members@[i as int]) =~= before + members_items(
                members@,
                (i + 1) as nat,
            ));
        }
        i += 1;
    }
}

/// Adds what is offered for the declarations of a script.
pub fn collect_module_completions(module: &Module, out: &mut Vec<CompletionItem>)
    ensures
        items_of(final(out)@) == items_of(old(out)@) + module_items(
            module.items@,
            module.items@.len(),
        ),
{
    let ghost before = items_of(out@);
    let mut i: usize = 0;
    proof {
        assert(before =~= before + module_items(module.items@, 0));
    }
    while i < module.items.len()
        invariant
            i <= module.items@.len(),
            items_of(out@) == before + module_items(module.items@, i as nat),
        decreases module.items@.len() - i,
    {
        let ghost prior = items_of(out@);
        match &module.items[i] {
            Item::Class(class) => {
                collect_member_completions(&class.members, out);
            },
            Item::Function(function) => {
                offer(
                    function.name.as_str(),
                    CompletionItemKind::Function,
                    "project function",
                    out,
                );
            },
            Item::Other => {},
        }
        proof {
            assert(items_of(out@) =~= prior + item_items(module.items@[i as int]));
            assert(prior + item_items(module.items@[i as int]) =~= before + module_items(
                module.items@,
                (i + 1) as nat,
            ));
        }
        i += 1;
    }
}

/// The classes and scripts of a project.
#[derive(Debug, PartialEq, Eq)]
pub struct ProjectIndex {
    /// The names of the classes.
    pub classes: Vec<String>,
    /// The declarations of each script that can be parsed.
    pub modules: Vec<Option<Module>>,
}

/// A field of the save schema.
#[derive(Debug, PartialEq, Eq)]
pub struct SaveField {
    pub name: String,
    /// The type, as it is written.
    pub ty: String,
}

/// What a project holds that can be completed.
#[derive(Debug, PartialEq, Eq)]
#[verifier::reject_recursive_types(P)]
pub struct Project<P> {
    /// The classes and scripts, if they can be discovered.
    pub index: Option<ProjectIndex>,
    /// The input actions, if the input map can be read.
    pub actions: Option<Vec<String>>,
    /// The fields of the save schema, if it can be read.
    pub save_fields: Option<Vec<SaveField>>,
    /// The entries of the asset directory, if it can be read.
    pub assets: Option<Vec<Entry<P>>>,
}

/// What is offered for the first `n` scripts: nothing for one that cannot be
/// parsed.
pub open spec fn scripts_items(modules: Seq<Option<Module>>, n: nat) -> Seq<ItemView>
    decreases n,
{
    if n == 0 {
        Seq::empty()
    } else {
        scripts_items(modules, (n - 1) as nat) + match modules[n - 1] {
            Some(module) => module_items(module.items@, module.items@.len()),
            None => Seq::empty(),
        }
    }
}

/// What is offered for the classes and scripts of a project.
pub open spec fn index_items(index: Option<ProjectIndex>) -> Seq<ItemView> {
    match index {
        Some(index) => labelled(
            texts(index.classes@),
            CompletionItemKind::Class,
            "project class"@,
        ) + scripts_items(index.modules@, index.modules@.len()),
        None => Seq::empty(),
    }
}

/// What is offered for the input actions of a project.
pub open spec fn action_items(actions: Option<Vec<String>>) -> Seq<ItemView> {
    match actions {
        Some(actions) => labelled(texts(actions@), CompletionItemKind::Event, "input action"@),
        None => Seq::empty(),
    }
}

/// What is offered for a field of the save schema: loading and storing it.
pub open spec fn save_field_items(field: SaveField) -> Seq<ItemView> {
    seq![
        ItemView {
            label: "ProjectSave."@ + field.name@,
            kind: CompletionItemKind::Method,
            detail: "load typed save field ("@ + field.ty@ + ")"@,
        },
        ItemView {
            label: "ProjectSave.set_"@ + field.name@,
            kind: CompletionItemKind::Method,
            detail: "store typed save field ("@ + field.ty@ + ")"@,
        },
    ]
}

/// What is offered for the first `n` fields of the save schema.
pub open spec fn save_fields_items(fields: Seq<SaveField>, n: nat) -> Seq<ItemView>
    decreases n,
{
    if n == 0 {
        Seq::empty()
    } else {
        save_fields_items(fields, (n - 1) as nat) + save_field_items(fields[n - 1])
    }
}

/// What is offered for the save schema of a project.
pub open spec fn schema_items(fields: Option<Vec<SaveField>>) -> Seq<ItemView> {
    match fields {
        Some(fields) => save_fields_items(fields@, fields@.len()),
        None => Seq::empty(),
    }
}

/// What is offered for the assets of a project.
pub open spec fn asset_items<P>(assets: Option<Vec<Entry<P>>>) -> Seq<ItemView> {
    labelled(ordered_asset_names(assets), CompletionItemKind::File, "packed project asset"@)
}

/// What is offered for a project; nothing if it cannot be loaded.
pub open spec fn project_items<P>(project: Option<&Project<P>>) -> Seq<ItemView> {
    match project {
        Some(project) => index_items(project.index) + action_items(project.actions) + schema_items(
            project.save_fields,
        ) + asset_items(project.assets),
        None => Seq::empty(),
    }
}

/// Adds what is offered for the scripts of a project.
fn collect_script_completions(modules: &Vec<Option<Module>>, out: &mut Vec<CompletionItem>)
    ensures
        items_of(final(out)@) == items_of(old(out)@) + scripts_items(modules@, modules@.len()),
{
    let ghost before = items_of(out@);
    let mut i: usize = 0;
    proof {
        assert(before =~= before + scripts_items(modules@, 0));
    }
    while i < modules.len()
        invariant
            i <= modules@.len(),
            items_of(out@) == before + scripts_items(modules@, i as nat),
        decreases modules@.len() - i,
    {
        let ghost prior = items_of(out@);
        if let Some(module) = &modules[i] {
            collect_module_completions(module, out);
        }
        proof {
            let more = match modules@[i as int] {
                Some(module) => module_items(module.items@, module.items@.len()),
                None => Seq::empty(),
            };
            assert(items_of(out@) =~= prior + more);
            assert(prior + more =~= before + scripts_items(modules@, (i + 1) as nat));
        }
        i += 1;
    }
}

/// Adds what is offered for the fields of the save schema.
fn collect_save_completions(fields: &Vec<SaveField>, out: &mut Vec<CompletionItem>)
    ensures
        items_of(final(out)@) == items_of(old(out)@) + save_fields_items(fields@, fields@.len()),
{
    let ghost before = items_of(out@);
    let mut i: usize = 0;
    proof {
        assert(before =~= before + save_fields_items(fields@, 0));
    }
    while i < fields.len()
        invariant
            i <= fields@.len(),
            items_of(out@) == before + save_fields_items(fields@, i as nat),
        decreases fields@.len() - i,
    {
        let ghost prior = items_of(out@);
        let name: &str = fields[i].name.as_str();
        let ty: &str = fields[i].ty.as_str();
        let load: String = joined("ProjectSave.", name);
        let load_detail: String = joined(joined("load typed save field (", ty).as_str(), ")");
        let store: String = joined("ProjectSave.set_", name);
        let store_detail: String = joined(joined("store typed save field (", ty).as_str(), ")");
        offer(load.as_str(), CompletionItemKind::Method, load_detail.as_str(), out);
        offer(store.as_str(), CompletionItemKind::Method, store_detail.as_str(), out);
        proof {
            assert(items_of(out@) =~= prior + save_field_items(fields@[i as int]));
            assert(prior + save_field_items(fields@[i as int]) =~= before + save_fields_items(
                fields@,
                (i + 1) as nat,
            ));
        }
        i += 1;
    }
}

/// Adds what is offered for the assets of a project: the files that the asset
/// directory holds, each directory in the order of its file names.
pub fn collect_asset_completions<P>(
    assets: &Option<Vec<Entry<P>>>,
    out: &mut Vec<CompletionItem>,
)
    ensures
        items_of(final(out)@) == items_of(old(out)@) + asset_items(*assets),
{
    let names: Vec<String> = asset_names_in_order(assets);
    offer_all(&names, CompletionItemKind::File, "packed project asset", out);
}

/// What is offered for a project: its classes, what its scripts declare, its
/// input actions, its save fields and its assets. There is no project outside
/// of one, nor where it cannot be loaded.
pub fn project_completions<P>(project: Option<&Project<P>>) -> (res: Vec<CompletionItem>)
    ensures
        items_of(res@) == project_items(project),
{
    let mut out: Vec<CompletionItem> = Vec::new();
    proof {
        assert(items_of(out@) =~= Seq::empty());
    }
    if let Some(project) = project {
        if let Some(index) = &project.index {
            offer_all(&index.classes, CompletionItemKind::Class, "project class", &mut out);
            collect_script_completions(&index.modules, &mut out);
        }
        proof {
            assert(items_of(out@) =~= index_items(project.index));
        }
        if let Some(actions) = &project.actions {
            offer_all(actions, CompletionItemKind::Event, "input action", &mut out);
        }
        proof {
            assert(items_of(out@) =~= index_items(project.index) + action_items(project.actions));
        }
        if let Some(fields) = &project.save_fields {
            collect_save_completions(fields, &mut out);
        }
        proof {
            assert(items_of(out@) =~= index_items(project.index) + action_items(project.actions)
                + schema_items(project.save_fields));
        }
        collect_asset_completions(&project.assets, &mut out);
    }
    out
}

/// What is offered for the engine.
pub open spec fn engine_items() -> Seq<ItemView> {
    ENGINE_SYMBOLS@.map_values(
        |symbol: (&'static str, &'static str)|
            ItemView { label: symbol.0@, kind: CompletionItemKind::Method, detail: symbol.1@ },
    )
}

/// Whether a label comes before another: its bytes do.
pub open spec fn label_before(a: Seq<char>, b: Seq<char>) -> bool {
    bytes_before(encode_utf8(a), encode_utf8(b))
}

/// Whether the completions are in the order of their labels, no label twice.
pub open spec fn in_label_order(items: Seq<ItemView>) -> bool {
    forall|i: int, j: int|
        0 <= i < j < items.len() ==> label_before(
            (#[trigger] items[i]).label,
            (#[trigger] items[j]).label,
        )
}

/// Whether a completion is the first of all with its label.
pub open spec fn is_first_of_label(all: Seq<ItemView>, item: ItemView) -> bool {
    exists|k: int|
        0 <= k < all.len() && #[trigger] all[k] == item && forall|m: int|
            0 <= m < k ==> (#[trigger] all[m]).label != item.label
}

/// Whether one of the completions has the label.
pub open spec fn has_label(items: Seq<ItemView>, label: Seq<char>) -> bool {
    exists|i: int| 0 <= i < items.len() && (#[trigger] items[i]).label == label
}

/// Whether `list` lists all completions: in the order of their labels, each
/// label once, and of several with the same label the first.
pub open spec fn lists_all(all: Seq<ItemView>, list: Seq<ItemView>) -> bool {
    &&& in_label_order(list)
    &&& forall|i: int| 0 <= i < list.len() ==> is_first_of_label(all, #[trigger] list[i])
    &&& forall|k: int| 0 <= k < all.len() ==> has_label(list, (#[trigger] all[k]).label)
}

proof fn lemma_label_before_total(a: Seq<char>, b: Seq<char>)
    ensures
        !(label_before(a, b) && label_before(b, a)),
        label_before(a, b) || label_before(b, a) || a == b,
        a == b ==> !label_before(a, b),
{
    lemma_bytes_before_total(encode_utf8(a), encode_utf8(b));
    if encode_utf8(a) == encode_utf8(b) {
        lemma_same_encoding(a, b);
    }
}

proof fn lemma_same_first(all: Seq<ItemView>, a: ItemView, b: ItemView)
    requires
        is_first_of_label(all, a),
        is_first_of_label(all, b),
        a.label == b.label,
    ensures
        a == b,
{
    let i = choose|k: int|
        0 <= k < all.len() && #[trigger] all[k] == a && forall|m: int|
            0 <= m < k ==> (#[trigger] all[m]).label != a.label;
    let j = choose|k: int|
        0 <= k < all.len() && #[trigger] all[k] == b && forall|m: int|
            0 <= m < k ==> (#[trigger] all[m]).label != b.label;
    if i < j {
        assert(all[i].label == b.label);
    } else if j < i {
        assert(all[j].label == a.label);
    }
}

proof fn lemma_lists_agree(
    all: Seq<ItemView>,
    a: Seq<ItemView>,
    b: Seq<ItemView>,
    i: int,
)
    requires
        lists_all(all, a),
        lists_all(all, b),
        0 <= i < a.len(),
    ensures
        i < b.len(),
        a[i] == b[i],
    decreases i,
{
    assert forall|m: int| 0 <= m < i implies m < b.len() && #[trigger] a[m] == b[m] by {
        lemma_lists_agree(all, a, b, m);
    }
    assert(is_first_of_label(all, a[i]));
    let k = choose|k: int| 0 <= k < all.len() && #[trigger] all[k] == a[i];
    assert(has_label(b, all[k].label));
    let j = choose|j: int| 0 <= j < b.len() && (#[trigger] b[j]).label == a[i].label;
    if j < i {
        assert(a[j] == b[j]);
        assert(label_before(a[j].label, a[i].label));
        lemma_label_before_total(a[j].label, a[i].label);
    } else if j > i {
        assert(label_before(b[i].label, b[j].label));
        assert(is_first_of_label(all, b[i]));
        let l = choose|l: int| 0 <= l < all.len() && #[trigger] all[l] == b[i];
        assert(has_label(a, all[l].label));
        let m = choose|m: int| 0 <= m < a.len() && (#[trigger] a[m]).label == b[i].label;
        lemma_label_before_total(a[m].label, a[i].label);
        if m < i {
            assert(a[m] == b[m]);
            assert(label_before(b[m].label, b[i].label));
            lemma_label_before_total(b[m].label, b[i].label);
        } else if m > i {
            assert(label_before(a[i].label, a[m].label));
        }
    }
    lemma_same_first(all, a[i], b[i]);
}

/// There is one list of all completions: what is listed does not depend on how
/// the completions are sorted.
pub proof fn law_list_is_unique(all: Seq<ItemView>, a: Seq<ItemView>, b: Seq<ItemView>)
    requires
        lists_all(all, a),
        lists_all(all, b),
    ensures
        a == b,
{
    if a.len() > 0 {
        lemma_lists_agree(all, a, b, a.len() - 1);
    }
    if b.len() > 0 {
        lemma_lists_agree(all, b, a, b.len() - 1);
    }
    assert forall|i: int| 0 <= i < a.len() implies a[i] == b[i] by {
        lemma_lists_agree(all, a, b, i);
    }
    assert(a =~= b);
}

/// Where a label stands in a list in the order of labels, or where it would:
/// whether it is there, and at which index.
fn slot_of(list: &Vec<CompletionItem>, label: &str) -> (res: (bool, usize))
    requires
        in_label_order(items_of(list@)),
    ensures
        res.1 <= list@.len(),
        res.0 ==> res.1 < list@.len() && list@[res.1 as int].label@ == label@,
        !res.0 ==> forall|i: int|
            0 <= i < res.1 ==> label_before((#[trigger] list@[i]).label@, label@),
        !res.0 ==> forall|i: int|
            res.1 <= i < list@.len() ==> label_before(label@, (#[trigger] list@[i]).label@),
{
    let ghost items = items_of(list@);
    let mut low: usize = 0;
    let mut high: usize = list.len();
    while low < high
        invariant
            items == items_of(list@),
            in_label_order(items),
            low <= high <= list@.len(),
            forall|i: int| 0 <= i < low ==> label_before((#[trigger] list@[i]).label@, label@),
            forall|i: int|
                high <= i < list@.len() ==> label_before(label@, (#[trigger] list@[i]).label@),
        decreases high - low,
    {
        let middle: usize = low + (high - low) / 2;
        let ghost found = list@[middle as int].label@;
        assert(items[middle as int].label == found);
        match place_bytes(list[middle].label.as_str().as_bytes(), label.as_bytes()) {
            Place::Same => {
                proof {
                    lemma_same_encoding(found, label@);
                }
                return (true, middle);
            },
            Place::Before => {
                proof {
                    assert forall|i: int| 0 <= i <= middle implies label_before(
                        (#[trigger] list@[i]).label@,
                        label@,
                    ) by {
                        if i < middle {
                            assert(label_before(items[i].label, items[middle as int].label));
                            lemma_bytes_before_transitive(
                                encode_utf8(list@[i].label@),
                                encode_utf8(found),
                                encode_utf8(label@),
                            );
                        }
                    }
                }
                low = middle + 1;
            },
            Place::After => {
                proof {
                    assert forall|i: int| middle <= i < list@.len() implies label_before(
                        label@,
                        (#[trigger] list@[i]).label@,
                    ) by {
                        if i > middle {
                            assert(label_before(items[middle as int].label, items[i].label));
                            lemma_bytes_before_transitive(
                                encode_utf8(label@),
                                encode_utf8(found),
                                encode_utf8(list@[i].label@),
                            );
                        }
                    }
                }
                high = middle;
            },
        }
    }
    (false, low)
}

/// A list of all completions seen so far lists one more after it is put where
/// its label belongs.
proof fn lemma_insert_lists_all(
    all: Seq<ItemView>,
    list: Seq<ItemView>,
    new: ItemView,
    at: int,
)
    requires
        lists_all(all, list),
        0 <= at <= list.len(),
        forall|i: int| 0 <= i < at ==> label_before((#[trigger] list[i]).label, new.label),
        forall|i: int| at <= i < list.len() ==> label_before(new.label, (#[trigger] list[i]).label),
    ensures
        lists_all(all.push(new), list.insert(at, new)),
{
    let more = all.push(new);
    let next = list.insert(at, new);
    assert forall|i: int, j: int| 0 <= i < j < next.len() implies label_before(
        (#[trigger] next[i]).label,
        (#[trigger] next[j]).label,
    ) by {
        let a = if i < at {
            i
        } else {
            i - 1
        };
        let b = if j < at {
            j
        } else {
            j - 1
        };
        if i != at {
            assert(next[i] == list[a]);
        }
        if j != at {
            assert(next[j] == list[b]);
        }
    }
    assert(!has_label(list, new.label)) by {
        if has_label(list, new.label) {
            let i = choose|i: int| 0 <= i < list.len() && (#[trigger] list[i]).label == new.label;
            lemma_label_before_total(list[i].label, new.label);
        }
    }
    assert(is_first_of_label(more, new)) by {
        assert(more[all.len() as int] == new);
        assert forall|m: int| 0 <= m < all.len() implies (#[trigger] more[m]).label != new.label by {
            assert(has_label(list, all[m].label));
        }
    }
    assert forall|i: int| 0 <= i < next.len() implies is_first_of_label(
        more,
        #[trigger] next[i],
    ) by {
        if i != at {
            let item = list[if i < at {
                i
            } else {
                i - 1
            }];
            assert(next[i] == item);
            lemma_first_of_more(all, new, item);
        }
    }
    assert forall|k: int| 0 <= k < more.len() implies has_label(
        next,
        (#[trigger] more[k]).label,
    ) by {
        if k < all.len() {
            assert(has_label(list, all[k].label));
            let i = choose|i: int| 0 <= i < list.len() && (#[trigger] list[i]).label == all[k].label;
            if i < at {
                assert(next[i] == list[i]);
            } else {
                assert(next[i + 1] == list[i]);
            }
        } else {
            assert(next[at] == new);
        }
    }
}

/// The first of all completions with its label stays so when one more comes.
proof fn lemma_first_of_more(all: Seq<ItemView>, new: ItemView, item: ItemView)
    requires
        is_first_of_label(all, item),
    ensures
        is_first_of_label(all.push(new), item),
{
    let more = all.push(new);
    let k = choose|k: int|
        0 <= k < all.len() && #[trigger] all[k] == item && forall|m: int|
            0 <= m < k ==> (#[trigger] all[m]).label != item.label;
    assert(more[k] == item);
    assert forall|m: int| 0 <= m < k implies (#[trigger] more[m]).label != item.label by {
        assert(more[m] == all[m]);
    }
}

/// A list of all completions stays so when one more comes with a label that is
/// already listed.
proof fn lemma_repeat_lists_all(all: Seq<ItemView>, list: Seq<ItemView>, new: ItemView)
    requires
        lists_all(all, list),
        has_label(list, new.label),
    ensures
        lists_all(all.push(new), list),
{
    let more = all.push(new);
    assert forall|i: int| 0 <= i < list.len() implies is_first_of_label(
        more,
        #[trigger] list[i],
    ) by {
        lemma_first_of_more(all, new, list[i]);
    }
    assert forall|k: int| 0 <= k < more.len() implies has_label(
        list,
        (#[trigger] more[k]).label,
    ) by {
        if k < all.len() {
            assert(more[k] == all[k]);
        }
    }
}

/// The completions in the order of their labels, each label once, and of
/// several with the same label the first.
pub fn listed(items: Vec<CompletionItem>) -> (res: Vec<CompletionItem>)
    ensures
        lists_all(items_of(items@), items_of(res@)),
{
    let mut list: Vec<CompletionItem> = Vec::new();
    let ghost all = items_of(items@);
    proof {
        assert(items_of(list@) =~= Seq::empty());
        assert(lists_all(all.take(0), items_of(list@)));
    }
    for item in iter: items
        invariant
            all == items_of(iter.seq()),
            lists_all(all.take(iter.index() as int), items_of(list@)),
    {
        let ghost seen = all.take(iter.index() as int);
        let ghost before = items_of(list@);
        proof {
            assert(all[iter.index() as int] == item@);
            assert(all.take(iter.index() as int + 1) =~= seen.push(item@));
        }
        let (there, at) = slot_of(&list, item.label.as_str());
        if there {
            proof {
                assert(before[at as int].label == item@.label);
                lemma_repeat_lists_all(seen, before, item@);
            }
        } else {
            proof {
                lemma_insert_lists_all(seen, before, item@, at as int);
            }
            list.insert(at, item);
            proof {
                assert(items_of(list@) =~= before.insert(at as int, item@));
            }
        }
    }
    proof {
        assert(all.take(all.len() as int) =~= all);
    }
    list
}

/// What is offered to complete the text at the cursor: the engine calls and
/// what the project holds.
pub fn complete<P>(project: Option<&Project<P>>) -> (res: Vec<CompletionItem>)
    ensures
        lists_all(engine_items() + project_items(project), items_of(res@)),
{
    let mut items: Vec<CompletionItem> = Vec::new();
    let mut i: usize = 0;
    proof {
        assert(items_of(items@) =~= engine_items().take(0));
    }
    while i < ENGINE_SYMBOLS.len()
        invariant
            i <= ENGINE_SYMBOLS.len(),
            items_of(items@) == engine_items().take(i as int),
        decreases ENGINE_SYMBOLS.len() - i,
    {
        let (label, detail) = ENGINE_SYMBOLS[i];
        offer(label, CompletionItemKind::Method, detail, &mut items);
        proof {
            assert(engine_items().take(i + 1) =~= engine_items().take(i as int).push(
                engine_items()[i as int],
            ));
        }
        i += 1;
    }
    let mut more: Vec<CompletionItem> = project_completions(project);
    let ghost first = items@;
    let ghost second = more@;
    items.append(&mut more);
    proof {
        assert(engine_items().take(ENGINE_SYMBOLS@.len() as int) =~= engine_items());
        assert(items_of(first + second) =~= items_of(first) + items_of(second));
    }
    listed(items)
}

/// What a project says of a word: of the first of its completions that the
/// word names.
pub open spec fn project_detail_of<P>(project: Option<&Project<P>>, word: Seq<char>) -> Option<
    Seq<char>,
> {
    let items = project_items(project);
    match first_named(items.map_values(|item: ItemView| item.label), word, 0) {
        Some(at) => Some(items[at].detail),
        None => None,
    }
}

/// A text that may be absent, as its characters.
pub open spec fn text_of(text: Option<String>) -> Option<Seq<char>> {
    match text {
        Some(text) => Some(text@),
        None => None,
    }
}

/// What a project says of a word, by the full label of a completion or by the
/// part behind its last dot.
pub fn project_detail<P>(project: Option<&Project<P>>, word: &str) -> (res: Option<String>)
    ensures
        text_of(res) == project_detail_of(project, word@),
{
    let items: Vec<CompletionItem> = project_completions(project);
    let ghost labels = project_items(project).map_values(|item: ItemView| item.label);
    let mut i: usize = 0;
    while i < items.len()
        invariant
            items_of(items@) == project_items(project),
            labels == project_items(project).map_values(|item: ItemView| item.label),
            i <= items@.len(),
            first_named(labels, word@, 0) == first_named(labels, word@, i as int),
        decreases items@.len() - i,
    {
        proof {
            assert(items_of(items@)[i as int] == items@[i as int]@);
            assert(labels[i as int] == items@[i as int].label@);
        }
        if is_named(items[i].label.as_str(), word) {
            return Some(items[i].detail.clone());
        }
        i += 1;
    }
    None
}

/// What is said of a word: what the engine call does that it names, and else
/// what the project says of it.
pub open spec fn detail_of<P>(project: Option<&Project<P>>, word: Seq<char>) -> Option<
    Seq<char>,
> {
    match first_named(engine_names(), word, 0) {
        Some(at) => Some(ENGINE_SYMBOLS@[at].1@),
        None => project_detail_of(project, word),
    }
}

/// What is said of the word at a position of a text.
pub fn hover<P>(
    text: &str,
    position: Position,
    project: Option<&Project<P>>,
) -> (res: Option<String>)
    ensures
        text_of(res) == detail_of(project, word_under(text@, position)),
{
    let word: String = word_at(text, position);
    match engine_detail(word.as_str()) {
        Some(detail) => Some(detail.to_owned()),
        None => project_detail(project, word.as_str()),
    }
}

/// Each completion that a project offers can be explained by its label.
pub proof fn law_offered_is_explained<P>(project: Option<&Project<P>>, i: int)
    requires
        0 <= i < project_items(project).len(),
    ensures
        detail_of(project, project_items(project)[i].label) is Some,
{
    let labels = project_items(project).map_values(|item: ItemView| item.label);
    assert(labels[i] == project_items(project)[i].label);
    lemma_first_named(labels, labels[i], 0);
    assert(names(labels[i], labels[i]));
}

/// Each engine call is offered, as such: no completion of the project takes its
/// place.
pub proof fn law_engine_calls_are_offered<P>(
    project: Option<&Project<P>>,
    list: Seq<ItemView>,
    i: int,
)
    requires
        lists_all(engine_items() + project_items(project), list),
        0 <= i < ENGINE_SYMBOLS@.len(),
    ensures
        list.contains(engine_items()[i]),
{
    let all = engine_items() + project_items(project);
    let item = engine_items()[i];
    assert(all[i] == item);
    assert forall|m: int| 0 <= m < i implies (#[trigger] all[m]).label != item.label by {
        lemma_engine_names_distinct(m, i);
        assert(all[m].label == engine_names()[m]);
        assert(item.label == engine_names()[i]);
    }
    assert(is_first_of_label(all, item));
    assert(has_label(list, all[i].label));
    let k = choose|k: int| 0 <= k < list.len() && (#[trigger] list[k]).label == item.label;
    lemma_same_first(all, list[k], item);
}

/// Each completion that is listed can be explained by its label.
pub proof fn law_listed_is_explained<P>(
    project: Option<&Project<P>>,
    list: Seq<ItemView>,
    i: int,
)
    requires
        lists_all(engine_items() + project_items(project), list),
        0 <= i < list.len(),
    ensures
        detail_of(project, list[i].label) is Some,
{
    let all = engine_items() + project_items(project);
    assert(is_first_of_label(all, list[i]));
    let k = choose|k: int| 0 <= k < all.len() && #[trigger] all[k] == list[i];
    if k < engine_items().len() {
        assert(list[i].label == engine_names()[k]);
        law_engine_calls_are_explained(project, k);
    } else {
        law_offered_is_explained(project, k - engine_items().len());
    }
}

/// Each engine call is explained by its full name, whatever the project holds.
pub proof fn law_engine_calls_are_explained<P>(project: Option<&Project<P>>, i: int)
    requires
        0 <= i < ENGINE_SYMBOLS@.len(),
    ensures
        detail_of(project, engine_names()[i]) == Some(ENGINE_SYMBOLS@[i].1@),
{
    lemma_engine_name_found(i);
}

} // verus!
