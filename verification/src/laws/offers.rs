//! Laws of what is offered to complete a text.

use crate::completion::{
    action_items, asset_items, engine_items, has_label, in_label_order, is_exported,
    is_first_of_label, items_of, labelled, lists_all, members_items, module_items, project_items,
    save_fields_items, schema_items, scripts_items, CompletionItem, CompletionItemKind, ItemView,
    Project, SaveField,
};
use crate::engine::ENGINE_SYMBOLS;
use crate::files::{ordered_asset_names, texts};
use crate::order::bytes_before;
use crate::syntax::{Field, Item, Member, Module};
use vstd::prelude::*;
use vstd::utf8::encode_utf8;

verus! {

/// Completions are taken by the characters of their texts, each in its place
/// and with all of its fields.
pub proof fn law_items_of(items: Seq<CompletionItem>)
    ensures
        items_of(items).len() == items.len(),
        forall|i: int|
            0 <= i < items.len() ==> {
                &&& items_of(items)[i].label == (#[trigger] items[i]).label@
                &&& items_of(items)[i].kind == items[i].kind
                &&& items_of(items)[i].detail == items[i].detail@
            },
{
}

/// Whether a completion has a label, a kind and a detail.
pub open spec fn is_item(
    item: ItemView,
    label: Seq<char>,
    kind: CompletionItemKind,
    detail: Seq<char>,
) -> bool {
    item.label == label && item.kind == kind && item.detail == detail
}

/// Each engine call is offered as a method, with what it does.
pub proof fn law_engine_items()
    ensures
        engine_items().len() == ENGINE_SYMBOLS@.len(),
        forall|i: int|
            0 <= i < ENGINE_SYMBOLS@.len() ==> is_item(
                #[trigger] engine_items()[i],
                ENGINE_SYMBOLS@[i].0@,
                CompletionItemKind::Method,
                ENGINE_SYMBOLS@[i].1@,
            ),
{
}

/// Whether one of the attributes of a field is the given one.
pub open spec fn has_attribute(field: Field, name: Seq<char>) -> bool {
    exists|k: int| 0 <= k < field.attributes@.len() && (#[trigger] field.attributes@[k])@ == name
}

proof fn lemma_exported(field: Field)
    ensures
        is_exported(field) <==> has_attribute(field, "export"@),
{
    let all = texts(field.attributes@);
    if all.contains("export"@) {
        let k = choose|k: int| 0 <= k < all.len() && all[k] == "export"@;
        assert(field.attributes@[k]@ == "export"@);
    }
    if has_attribute(field, "export"@) {
        let k = choose|k: int|
            0 <= k < field.attributes@.len() && (#[trigger] field.attributes@[k])@ == "export"@;
        assert(all[k] == "export"@);
    }
}

/// What is offered for a member of a class on its own: a field as a property
/// that scenes can set if it has the attribute for it, a method, a signal; and
/// for a class within the class nothing.
pub proof fn law_single_member(member: Member)
    ensures
        ({
            let offered = members_items(seq![member], 1);
            match member {
                Member::Field(field) => offered.len() == 1 && is_item(
                    offered[0],
                    field.name@,
                    CompletionItemKind::Field,
                    if has_attribute(field, "export"@) {
                        "exported scene property"@
                    } else {
                        "class field"@
                    },
                ),
                Member::Function(function) => offered.len() == 1 && is_item(
                    offered[0],
                    function.name@,
                    CompletionItemKind::Method,
                    "class method"@,
                ),
                Member::Signal(signal) => offered.len() == 1 && is_item(
                    offered[0],
                    signal.name@,
                    CompletionItemKind::Event,
                    "typed signal"@,
                ),
                Member::Class => offered.len() == 0,
            }
        }),
{
    if let Member::Field(field) = member {
        lemma_exported(field);
    }
    assert(members_items(seq![member], 0) =~= Seq::<ItemView>::empty());
}

/// What is offered for the members of a class is what is offered for the first
/// of them and then for the others, wherever they are divided.
pub proof fn law_divided_members(first: Seq<Member>, second: Seq<Member>)
    ensures
        members_items(first + second, (first + second).len()) == members_items(first, first.len())
            + members_items(second, second.len()),
{
    lemma_members_second(first, second, second.len());
}

proof fn lemma_members_first(first: Seq<Member>, second: Seq<Member>, n: nat)
    requires
        n <= first.len(),
    ensures
        members_items(first + second, n) == members_items(first, n),
    decreases n,
{
    if n > 0 {
        lemma_members_first(first, second, (n - 1) as nat);
        assert((first + second)[n - 1] == first[n - 1]);
    }
}

proof fn lemma_members_second(first: Seq<Member>, second: Seq<Member>, n: nat)
    requires
        n <= second.len(),
    ensures
        members_items(first + second, first.len() + n) == members_items(first, first.len())
            + members_items(second, n),
    decreases n,
{
    let head = members_items(first, first.len());
    if n > 0 {
        lemma_members_second(first, second, (n - 1) as nat);
        assert((first + second)[first.len() + n - 1] == second[n - 1]);
        assert(members_items(first + second, first.len() + n) =~= head + members_items(second, n));
    } else {
        lemma_members_first(first, second, first.len());
        assert(head + members_items(second, 0) =~= head);
    }
}

/// What is offered for a declaration of a script on its own: a function, what
/// is offered for the members of a class, and for others nothing.
pub proof fn law_single_declaration(item: Item)
    ensures
        ({
            let offered = module_items(seq![item], 1);
            match item {
                Item::Class(class) => offered == members_items(
                    class.members@,
                    class.members@.len(),
                ),
                Item::Function(function) => offered.len() == 1 && is_item(
                    offered[0],
                    function.name@,
                    CompletionItemKind::Function,
                    "project function"@,
                ),
                Item::Other => offered.len() == 0,
            }
        }),
{
    assert(module_items(seq![item], 0) =~= Seq::<ItemView>::empty());
    if let Item::Class(class) = item {
        assert(module_items(seq![item], 1) =~= members_items(
            class.members@,
            class.members@.len(),
        ));
    }
}

/// What is offered for the declarations of a script is what is offered for the
/// first of them and then for the others, wherever they are divided.
pub proof fn law_divided_declarations(first: Seq<Item>, second: Seq<Item>)
    ensures
        module_items(first + second, (first + second).len()) == module_items(first, first.len())
            + module_items(second, second.len()),
{
    lemma_declarations_second(first, second, second.len());
}

proof fn lemma_declarations_first(first: Seq<Item>, second: Seq<Item>, n: nat)
    requires
        n <= first.len(),
    ensures
        module_items(first + second, n) == module_items(first, n),
    decreases n,
{
    if n > 0 {
        lemma_declarations_first(first, second, (n - 1) as nat);
        assert((first + second)[n - 1] == first[n - 1]);
    }
}

proof fn lemma_declarations_second(first: Seq<Item>, second: Seq<Item>, n: nat)
    requires
        n <= second.len(),
    ensures
        module_items(first + second, first.len() + n) == module_items(first, first.len())
            + module_items(second, n),
    decreases n,
{
    let head = module_items(first, first.len());
    if n > 0 {
        lemma_declarations_second(first, second, (n - 1) as nat);
        assert((first + second)[first.len() + n - 1] == second[n - 1]);
        assert(module_items(first + second, first.len() + n) =~= head + module_items(second, n));
    } else {
        lemma_declarations_first(first, second, first.len());
        assert(head + module_items(second, 0) =~= head);
    }
}

/// What is offered for a script on its own is what is offered for its
/// declarations, and nothing if it cannot be parsed.
pub proof fn law_single_script(script: Option<Module>)
    ensures
        script matches Some(module) ==> scripts_items(seq![script], 1) == module_items(
            module.items@,
            module.items@.len(),
        ),
        script is None ==> scripts_items(seq![script], 1).len() == 0,
{
    assert(scripts_items(seq![script], 0) =~= Seq::<ItemView>::empty());
    if let Some(module) = script {
        assert(scripts_items(seq![script], 1) =~= module_items(
            module.items@,
            module.items@.len(),
        ));
    }
}

/// What is offered for several scripts is what is offered for the first of them
/// and then for the others, wherever they are divided.
pub proof fn law_divided_scripts(first: Seq<Option<Module>>, second: Seq<Option<Module>>)
    ensures
        scripts_items(first + second, (first + second).len()) == scripts_items(first, first.len())
            + scripts_items(second, second.len()),
{
    lemma_scripts_second(first, second, second.len());
}

proof fn lemma_scripts_first(first: Seq<Option<Module>>, second: Seq<Option<Module>>, n: nat)
    requires
        n <= first.len(),
    ensures
        scripts_items(first + second, n) == scripts_items(first, n),
    decreases n,
{
    if n > 0 {
        lemma_scripts_first(first, second, (n - 1) as nat);
        assert((first + second)[n - 1] == first[n - 1]);
    }
}

proof fn lemma_scripts_second(first: Seq<Option<Module>>, second: Seq<Option<Module>>, n: nat)
    requires
        n <= second.len(),
    ensures
        scripts_items(first + second, first.len() + n) == scripts_items(first, first.len())
            + scripts_items(second, n),
    decreases n,
{
    let head = scripts_items(first, first.len());
    if n > 0 {
        lemma_scripts_second(first, second, (n - 1) as nat);
        assert((first + second)[first.len() + n - 1] == second[n - 1]);
        assert(scripts_items(first + second, first.len() + n) =~= head + scripts_items(second, n));
    } else {
        lemma_scripts_first(first, second, first.len());
        assert(head + scripts_items(second, 0) =~= head);
    }
}

/// Nothing is offered where nothing is declared.
pub proof fn law_nothing_declared()
    ensures
        members_items(Seq::empty(), 0).len() == 0,
        module_items(Seq::empty(), 0).len() == 0,
        scripts_items(Seq::empty(), 0).len() == 0,
{
}

/// Whether each completion is of one of the names, in their order, and all are
/// of a kind.
pub open spec fn offers_names(
    items: Seq<ItemView>,
    names: Seq<Seq<char>>,
    kind: CompletionItemKind,
    detail: Seq<char>,
) -> bool {
    &&& items.len() == names.len()
    &&& forall|i: int|
        0 <= i < names.len() ==> is_item(#[trigger] items[i], names[i], kind, detail)
}

/// Whether there are two completions for each field of the save schema, in their
/// order: to load it and to store it.
pub open spec fn offers_fields(items: Seq<ItemView>, fields: Seq<SaveField>) -> bool {
    &&& items.len() == 2 * fields.len()
    &&& forall|i: int|
        #![trigger fields[i]]
        0 <= i < fields.len() ==> {
            &&& is_item(
                items[2 * i],
                "ProjectSave."@ + fields[i].name@,
                CompletionItemKind::Method,
                "load typed save field ("@ + fields[i].ty@ + ")"@,
            )
            &&& is_item(
                items[2 * i + 1],
                "ProjectSave.set_"@ + fields[i].name@,
                CompletionItemKind::Method,
                "store typed save field ("@ + fields[i].ty@ + ")"@,
            )
        }
}

proof fn lemma_fields(fields: Seq<SaveField>, n: nat)
    requires
        n <= fields.len(),
    ensures
        offers_fields(save_fields_items(fields, n), fields.take(n as int)),
    decreases n,
{
    if n > 0 {
        lemma_fields(fields, (n - 1) as nat);
        let before = save_fields_items(fields, (n - 1) as nat);
        let items = save_fields_items(fields, n);
        let fewer = fields.take(n - 1);
        let more = fields.take(n as int);
        assert forall|i: int|
            #![trigger more[i]]
            0 <= i < more.len() implies {
            &&& is_item(
                items[2 * i],
                "ProjectSave."@ + more[i].name@,
                CompletionItemKind::Method,
                "load typed save field ("@ + more[i].ty@ + ")"@,
            )
            &&& is_item(
                items[2 * i + 1],
                "ProjectSave.set_"@ + more[i].name@,
                CompletionItemKind::Method,
                "store typed save field ("@ + more[i].ty@ + ")"@,
            )
        } by {
            if i < n - 1 {
                assert(more[i] == fewer[i]);
                assert(items[2 * i] == before[2 * i]);
                assert(items[2 * i + 1] == before[2 * i + 1]);
            } else {
                assert(items[2 * i] == items[before.len() as int]);
                assert(items[2 * i + 1] == items[before.len() as int + 1]);
            }
        }
    }
}

/// A project offers its classes, what its scripts declare, its input actions,
/// its save fields and its assets, one after the other and nothing else. What
/// cannot be read is left out.
pub proof fn law_project_items<P>(project: &Project<P>) -> (parts: Seq<Seq<ItemView>>)
    ensures
        parts.len() == 5,
        project_items(Some(project)) == parts[0] + parts[1] + parts[2] + parts[3] + parts[4],
        project.index matches Some(index) ==> {
            &&& offers_names(
                parts[0],
                texts(index.classes@),
                CompletionItemKind::Class,
                "project class"@,
            )
            &&& parts[1] == scripts_items(index.modules@, index.modules@.len())
        },
        project.index is None ==> parts[0].len() == 0 && parts[1].len() == 0,
        project.actions matches Some(actions) ==> offers_names(
            parts[2],
            texts(actions@),
            CompletionItemKind::Event,
            "input action"@,
        ),
        project.actions is None ==> parts[2].len() == 0,
        project.save_fields matches Some(fields) ==> offers_fields(parts[3], fields@),
        project.save_fields is None ==> parts[3].len() == 0,
        offers_names(
            parts[4],
            ordered_asset_names(project.assets),
            CompletionItemKind::File,
            "packed project asset"@,
        ),
        project_items(None::<&Project<P>>).len() == 0,
{
    let none = Seq::<ItemView>::empty();
    let classes = match project.index {
        Some(index) => labelled(
            texts(index.classes@),
            CompletionItemKind::Class,
            "project class"@,
        ),
        None => none,
    };
    let scripts = match project.index {
        Some(index) => scripts_items(index.modules@, index.modules@.len()),
        None => none,
    };
    let actions = action_items(project.actions);
    let fields = schema_items(project.save_fields);
    let assets = asset_items(project.assets);
    if let Some(all) = project.save_fields {
        lemma_fields(all@, all@.len());
        assert(all@.take(all@.len() as int) =~= all@);
    }
    assert(project_items(Some(project)) =~= classes + scripts + actions + fields + assets);
    seq![classes, scripts, actions, fields, assets]
}

/// Whether a script declares a name, as a function, or as a field, a method or a
/// signal of a class.
pub open spec fn declares_name(module: Module, i: int, j: int, name: Seq<char>) -> bool {
    &&& 0 <= i < module.items@.len()
    &&& match module.items@[i] {
        Item::Function(function) => function.name@ == name,
        Item::Class(class) => 0 <= j < class.members@.len() && match class.members@[j] {
            Member::Field(field) => field.name@ == name,
            Member::Function(function) => function.name@ == name,
            Member::Signal(signal) => signal.name@ == name,
            Member::Class => false,
        },
        Item::Other => false,
    }
}

/// Whether one of the completions has a label.
pub open spec fn offers_label(items: Seq<ItemView>, label: Seq<char>) -> bool {
    exists|k: int| 0 <= k < items.len() && (#[trigger] items[k]).label == label
}

proof fn lemma_offers_either(a: Seq<ItemView>, b: Seq<ItemView>, label: Seq<char>)
    requires
        offers_label(a, label) || offers_label(b, label),
    ensures
        offers_label(a + b, label),
{
    if offers_label(a, label) {
        let k = choose|k: int| 0 <= k < a.len() && (#[trigger] a[k]).label == label;
        assert((a + b)[k].label == label);
    } else {
        let k = choose|k: int| 0 <= k < b.len() && (#[trigger] b[k]).label == label;
        assert((a + b)[a.len() + k].label == label);
    }
}

proof fn lemma_member_offered(members: Seq<Member>, j: int, label: Seq<char>)
    requires
        0 <= j < members.len(),
        offers_label(members_items(seq![members[j]], 1), label),
    ensures
        offers_label(members_items(members, members.len()), label),
{
    let before = members.take(j);
    let own = seq![members[j]];
    let behind = members.skip(j + 1);
    law_divided_members(before, own);
    law_divided_members(before + own, behind);
    assert(before + own + behind =~= members);
    lemma_offers_either(
        members_items(before, before.len()),
        members_items(own, own.len()),
        label,
    );
    lemma_offers_either(
        members_items(before + own, (before + own).len()),
        members_items(behind, behind.len()),
        label,
    );
}

proof fn lemma_declaration_offered(items: Seq<Item>, i: int, label: Seq<char>)
    requires
        0 <= i < items.len(),
        offers_label(module_items(seq![items[i]], 1), label),
    ensures
        offers_label(module_items(items, items.len()), label),
{
    let before = items.take(i);
    let own = seq![items[i]];
    let behind = items.skip(i + 1);
    law_divided_declarations(before, own);
    law_divided_declarations(before + own, behind);
    assert(before + own + behind =~= items);
    lemma_offers_either(module_items(before, before.len()), module_items(own, own.len()), label);
    lemma_offers_either(
        module_items(before + own, (before + own).len()),
        module_items(behind, behind.len()),
        label,
    );
}

proof fn lemma_script_offered(modules: Seq<Option<Module>>, k: int, label: Seq<char>)
    requires
        0 <= k < modules.len(),
        offers_label(scripts_items(seq![modules[k]], 1), label),
    ensures
        offers_label(scripts_items(modules, modules.len()), label),
{
    let before = modules.take(k);
    let own = seq![modules[k]];
    let behind = modules.skip(k + 1);
    law_divided_scripts(before, own);
    law_divided_scripts(before + own, behind);
    assert(before + own + behind =~= modules);
    lemma_offers_either(scripts_items(before, before.len()), scripts_items(own, own.len()), label);
    lemma_offers_either(
        scripts_items(before + own, (before + own).len()),
        scripts_items(behind, behind.len()),
        label,
    );
}

/// Each name that any script of a project declares is offered, and stands in the
/// list that `complete` gives.
pub proof fn law_declared_names_are_listed<P>(
    project: &Project<P>,
    module: Module,
    k: int,
    i: int,
    j: int,
    name: Seq<char>,
    res: Seq<CompletionItem>,
)
    requires
        project.index is Some,
        0 <= k < project.index->0.modules@.len(),
        project.index->0.modules@[k] == Some(module),
        declares_name(module, i, j, name),
        lists_all(engine_items() + project_items(Some(project)), items_of(res)),
    ensures
        offers_label(project_items(Some(project)), name),
        exists|at: int| 0 <= at < res.len() && (#[trigger] res[at]).label@ == name,
{
    let modules = project.index->0.modules@;
    let item = module.items@[i];
    law_single_declaration(item);
    if let Item::Class(class) = item {
        law_single_member(class.members@[j]);
        assert(members_items(seq![class.members@[j]], 1)[0].label == name);
        lemma_member_offered(class.members@, j, name);
    } else {
        assert(module_items(seq![item], 1)[0].label == name);
    }
    lemma_declaration_offered(module.items@, i, name);
    law_single_script(modules[k]);
    lemma_script_offered(modules, k, name);
    let parts = law_project_items(project);
    lemma_offers_either(parts[0], parts[1], name);
    lemma_offers_either(parts[0] + parts[1], parts[2], name);
    lemma_offers_either(parts[0] + parts[1] + parts[2], parts[3], name);
    lemma_offers_either(parts[0] + parts[1] + parts[2] + parts[3], parts[4], name);
    law_list(Some(project), res);
    let all = engine_items() + project_items(Some(project));
    lemma_offers_either(engine_items(), project_items(Some(project)), name);
    let m = choose|m: int| 0 <= m < all.len() && (#[trigger] all[m]).label == name;
    assert(exists|at: int| 0 <= at < res.len() && (#[trigger] res[at]).label@ == all[m].label);
}

/// The list that `complete` gives holds each label that the engine or the
/// project offers, once and in the order of the bytes of the labels; and of
/// several completions with a label the first, the engine before the project.
pub proof fn law_list<P>(project: Option<&Project<P>>, res: Seq<CompletionItem>)
    requires
        lists_all(engine_items() + project_items(project), items_of(res)),
    ensures
        ({
            let all = engine_items() + project_items(project);
            &&& forall|m: int|
                0 <= m < all.len() ==> exists|at: int|
                    0 <= at < res.len() && (#[trigger] res[at]).label@ == (#[trigger] all[m]).label
            &&& forall|i: int, j: int|
                0 <= i < j < res.len() ==> bytes_before(
                    encode_utf8((#[trigger] res[i]).label@),
                    encode_utf8((#[trigger] res[j]).label@),
                )
            &&& forall|i: int|
                0 <= i < res.len() ==> is_first_offer(all, #[trigger] res[i])
        }),
{
    let all = engine_items() + project_items(project);
    let list = items_of(res);
    law_items_of(res);
    assert forall|m: int| 0 <= m < all.len() implies exists|at: int|
        0 <= at < res.len() && (#[trigger] res[at]).label@ == (#[trigger] all[m]).label by {
        assert(has_label(list, all[m].label));
        let at = choose|at: int| 0 <= at < list.len() && (#[trigger] list[at]).label == all[m].label;
        assert(res[at].label@ == all[m].label);
    }
    assert forall|i: int, j: int| 0 <= i < j < res.len() implies bytes_before(
        encode_utf8((#[trigger] res[i]).label@),
        encode_utf8((#[trigger] res[j]).label@),
    ) by {
        assert(list[i].label == res[i].label@);
        assert(list[j].label == res[j].label@);
    }
    assert forall|i: int| 0 <= i < res.len() implies is_first_offer(all, #[trigger] res[i]) by {
        assert(is_first_of_label(all, list[i]));
        let k = choose|k: int|
            0 <= k < all.len() && #[trigger] all[k] == list[i] && forall|m: int|
                0 <= m < k ==> (#[trigger] all[m]).label != list[i].label;
        assert(is_item(all[k], res[i].label@, res[i].kind, res[i].detail@));
    }
}

/// Whether a completion is the first of all with its label.
pub open spec fn is_first_offer(all: Seq<ItemView>, item: CompletionItem) -> bool {
    exists|k: int|
        {
            &&& 0 <= k < all.len()
            &&& is_item(#[trigger] all[k], item.label@, item.kind, item.detail@)
            &&& forall|m: int| 0 <= m < k ==> (#[trigger] all[m]).label != item.label@
        }
}

/// The same holds of any completions that `listed` puts in order.
pub proof fn law_listed(items: Seq<CompletionItem>, res: Seq<CompletionItem>)
    requires
        lists_all(items_of(items), items_of(res)),
    ensures
        forall|m: int|
            0 <= m < items.len() ==> exists|at: int|
                0 <= at < res.len() && (#[trigger] res[at]).label@ == (#[trigger] items[m]).label@,
        forall|i: int, j: int|
            0 <= i < j < res.len() ==> bytes_before(
                encode_utf8((#[trigger] res[i]).label@),
                encode_utf8((#[trigger] res[j]).label@),
            ),
        forall|i: int| 0 <= i < res.len() ==> is_first_offer(items_of(items), #[trigger] res[i]),
{
    let all = items_of(items);
    let list = items_of(res);
    law_items_of(res);
    law_items_of(items);
    assert forall|m: int| 0 <= m < items.len() implies exists|at: int|
        0 <= at < res.len() && (#[trigger] res[at]).label@ == (#[trigger] items[m]).label@ by {
        assert(has_label(list, all[m].label));
        let at = choose|at: int| 0 <= at < list.len() && (#[trigger] list[at]).label == all[m].label;
        assert(res[at].label@ == items[m].label@);
    }
    assert(in_label_order(list));
    assert forall|i: int, j: int| 0 <= i < j < res.len() implies bytes_before(
        encode_utf8((#[trigger] res[i]).label@),
        encode_utf8((#[trigger] res[j]).label@),
    ) by {
        assert(list[i].label == res[i].label@);
        assert(list[j].label == res[j].label@);
    }
    assert forall|i: int| 0 <= i < res.len() implies is_first_offer(all, #[trigger] res[i]) by {
        assert(is_first_of_label(all, list[i]));
        let k = choose|k: int|
            0 <= k < all.len() && #[trigger] all[k] == list[i] && forall|m: int|
                0 <= m < k ==> (#[trigger] all[m]).label != list[i].label;
        assert(is_item(all[k], res[i].label@, res[i].kind, res[i].detail@));
    }
}

} // verus!
