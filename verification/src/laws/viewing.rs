//! What values show of what they hold.
use vstd::prelude::*;

use crate::config::{answer_view, answer_views, document_read, path_views, Load, LoadView};
use crate::document::{
    toml_datetime, toml_document, toml_entries, toml_tree, toml_trees, Layer,
};
use crate::pass::{Action, ActionView, Reply};
use crate::plan::{step_views, Notice, NoticeView, Step, StepView};
use crate::ports::{client_view, refusal_views, Refusal};
use crate::reconciler::{source_views, LoadEvent, LoadEventView, LoadStep, LoadStepView, Stamp};
use crate::text::texts;
use crate::value::{
    entry_ref_views, entry_views, enumerates, keys_of, precedes, trees, ConfigValue, TableView, Tree,
};

verus! {

/// A list of strings shows the characters of each, one by one.
pub proof fn strings_show_their_characters(list: Seq<String>, client: Option<&str>)
    ensures
        texts(list).len() == list.len(),
        forall|i: int| 0 <= i < list.len() ==> #[trigger] texts(list)[i] == list[i]@,
        client is Some ==> client_view(client) == Some(client->0@),
        client is None ==> client_view(client) is None,
{
}

/// A value shows its kind and all that it holds; an array, what its items hold, one by one.
pub proof fn values_show_what_they_hold(value: ConfigValue)
    ensures
        match value {
            ConfigValue::Text(text) => value@ == Tree::Text(text@),
            ConfigValue::Integer(n) => value@ == Tree::Integer(n),
            ConfigValue::Float(bits) => value@ == Tree::Float(bits),
            ConfigValue::Boolean(b) => value@ == Tree::Boolean(b),
            ConfigValue::Datetime(d) => value@ == Tree::Datetime(d),
            ConfigValue::Array(items) => {
                &&& value@ is Array
                &&& value@->Array_0.len() == items@.len()
                &&& forall|i: int|
                    0 <= i < items@.len() ==> #[trigger] value@->Array_0[i] == items@[i]@
            },
            ConfigValue::Table(table) => value@ == Tree::Table(table@),
        },
{
}

/// Lists of values and of entries show each of their items, one by one.
pub proof fn lists_show_their_items(
    items: Seq<ConfigValue>,
    owned: Seq<(String, ConfigValue)>,
    borrowed: Seq<(&String, &ConfigValue)>,
    entries: Seq<(Seq<char>, Tree)>,
)
    ensures
        trees(items).len() == items.len(),
        forall|i: int| 0 <= i < items.len() ==> #[trigger] trees(items)[i] == items[i]@,
        entry_views(owned).len() == owned.len(),
        forall|i: int|
            0 <= i < owned.len() ==> #[trigger] entry_views(owned)[i] == (owned[i].0@, owned[i].1@),
        entry_ref_views(borrowed).len() == borrowed.len(),
        forall|i: int|
            0 <= i < borrowed.len() ==> #[trigger] entry_ref_views(borrowed)[i] == (
                borrowed[i].0@,
                borrowed[i].1@,
            ),
        keys_of(entries).len() == entries.len(),
        forall|i: int| 0 <= i < entries.len() ==> #[trigger] keys_of(entries)[i] == entries[i].0,
{
}

/// A table is enumerated by a list of its entries, each of them once, in the order of their keys.
pub proof fn how_a_table_is_enumerated(entries: Seq<(Seq<char>, Tree)>, table: TableView)
    ensures
        enumerates(entries, table) <==> {
            &&& forall|i: int, j: int|
                0 <= i < j < entries.len() ==> precedes(
                    (#[trigger] entries[i]).0,
                    (#[trigger] entries[j]).0,
                )
            &&& forall|i: int|
                0 <= i < entries.len() ==> table.contains_key((#[trigger] entries[i]).0)
                    && table[entries[i].0] == entries[i].1
            &&& forall|key: Seq<char>| #[trigger]
                table.contains_key(key) ==> exists|i: int|
                    0 <= i < entries.len() && (#[trigger] entries[i]).0 == key
        },
{
    let keys = keys_of(entries);
    if enumerates(entries, table) {
        assert forall|i: int, j: int| 0 <= i < j < entries.len() implies precedes(
            (#[trigger] entries[i]).0,
            (#[trigger] entries[j]).0,
        ) by {
            assert(precedes(keys[i], keys[j]));
        }
        assert forall|i: int| 0 <= i < entries.len() implies table.contains_key(
            (#[trigger] entries[i]).0,
        ) && table[entries[i].0] == entries[i].1 by {
            assert(table.dom().contains(keys[i]));
        }
        assert forall|key: Seq<char>| #[trigger] table.contains_key(key) implies exists|i: int|
            0 <= i < entries.len() && (#[trigger] entries[i]).0 == key by {
            assert(keys.contains(key));
            let i = choose|i: int| 0 <= i < keys.len() && keys[i] == key;
            assert(entries[i].0 == key);
        }
    }
    if {
        &&& forall|i: int, j: int|
            0 <= i < j < entries.len() ==> precedes(
                (#[trigger] entries[i]).0,
                (#[trigger] entries[j]).0,
            )
        &&& forall|i: int|
            0 <= i < entries.len() ==> table.contains_key((#[trigger] entries[i]).0)
                && table[entries[i].0] == entries[i].1
        &&& forall|key: Seq<char>| #[trigger]
            table.contains_key(key) ==> exists|i: int|
                0 <= i < entries.len() && (#[trigger] entries[i]).0 == key
    } {
        assert forall|i: int, j: int| 0 <= i < j < keys.len() implies precedes(keys[i], keys[j]) by {
            assert(precedes(entries[i].0, entries[j].0));
        }
        assert forall|i: int| 0 <= i < keys.len() implies table.dom().contains(
            #[trigger] keys[i],
        ) by {
            assert(table.contains_key(entries[i].0));
        }
        assert forall|key: Seq<char>| table.dom().contains(key) implies keys.contains(key) by {
            assert(table.contains_key(key));
            let i = choose|i: int| 0 <= i < entries.len() && (#[trigger] entries[i]).0 == key;
            assert(keys[i] == key);
        }
    }
}

/// The outermost layer of a TOML value shows its kind and all that it holds; an array, what its
/// items hold, one by one; and a table, its entries.
pub proof fn layers_show_what_they_hold(layer: Layer, tree: Tree)
    ensures
        match layer {
            Layer::Text(text) => layer.of(tree) <==> tree == Tree::Text(text@),
            Layer::Integer(n) => layer.of(tree) <==> tree == Tree::Integer(n),
            Layer::Float(bits) => layer.of(tree) <==> tree == Tree::Float(bits),
            Layer::Boolean(b) => layer.of(tree) <==> tree == Tree::Boolean(b),
            Layer::Datetime(d) => layer.of(tree) <==> tree == Tree::Datetime(toml_datetime(d)),
            Layer::Array(items) => layer.of(tree) <==> {
                &&& tree is Array
                &&& tree->Array_0.len() == items@.len()
                &&& forall|i: int|
                    0 <= i < items@.len() ==> #[trigger] tree->Array_0[i] == toml_tree(items@[i])
            },
            Layer::Table(entries) => layer.of(tree) <==> tree is Table && enumerates(
                Seq::new(
                    entries@.len(),
                    |i: int| (entries@[i].0@, toml_tree(entries@[i].1)),
                ),
                tree->Table_0,
            ),
        },
{
    if let Layer::Array(items) = layer {
        if tree is Array && tree->Array_0.len() == items@.len() && (forall|i: int|
            0 <= i < items@.len() ==> #[trigger] tree->Array_0[i] == toml_tree(items@[i])) {
            assert(tree->Array_0 =~= toml_trees(items@));
        }
        if layer.of(tree) {
            assert(tree->Array_0 == toml_trees(items@));
        }
    }
    if let Layer::Table(entries) = layer {
        assert(toml_entries(entries@) =~= Seq::new(
            entries@.len(),
            |i: int| (entries@[i].0@, toml_tree(entries@[i].1)),
        ));
    }
}

/// Lists of TOML values and of keys with them show each of their items, one by one.
pub proof fn toml_lists_show_their_items(
    items: Seq<toml::Value>,
    entries: Seq<(String, toml::Value)>,
)
    ensures
        toml_trees(items).len() == items.len(),
        forall|i: int| 0 <= i < items.len() ==> #[trigger] toml_trees(items)[i] == toml_tree(items[i]),
        toml_entries(entries).len() == entries.len(),
        forall|i: int|
            0 <= i < entries.len() ==> #[trigger] toml_entries(entries)[i] == (
                entries[i].0@,
                toml_tree(entries[i].1),
            ),
{
}

/// An answer shows what was found or why nothing was, a list of them each one with its path, and a
/// text the document that it is or why it is none.
pub proof fn answers_show_what_they_say<T: View>(
    name: Result<T, String>,
    names: Seq<(String, Result<T, String>)>,
    paths: Seq<((String, String), String)>,
    text: Seq<char>,
)
    ensures
        name is Ok ==> answer_view(name) == Ok::<T::V, Seq<char>>(name->Ok_0@),
        name is Err ==> answer_view(name) == Err::<T::V, Seq<char>>(name->Err_0@),
        answer_views(names).len() == names.len(),
        forall|i: int|
            0 <= i < names.len() ==> #[trigger] answer_views(names)[i] == (
                names[i].0@,
                answer_view(names[i].1),
            ),
        path_views(paths).len() == paths.len(),
        forall|i: int|
            0 <= i < paths.len() ==> #[trigger] path_views(paths)[i] == (
                (paths[i].0.0@, paths[i].0.1@),
                paths[i].1@,
            ),
        document_read(Ok(text)) == toml_document(text),
        document_read(Err(text)) == Err::<TableView, Seq<char>>(text),
{
}

/// How far a map could be loaded shows what is needed, what went wrong or what was loaded.
pub proof fn loads_show_what_they_say(load: Load)
    ensures
        match load {
            Load::Join(file, name) => load@ == LoadView::Join(file@, name@),
            Load::Resolve(path) => load@ == LoadView::Resolve(path@),
            Load::Read(file) => load@ == LoadView::Read(file@),
            Load::Failed(why) => load@ == LoadView::Failed(why@),
            Load::Complete(loaded) => {
                &&& load@ is Complete
                &&& load@->Complete_0 == loaded.table@
                &&& load@->Complete_1.len() == loaded.sources@.len()
                &&& forall|i: int|
                    0 <= i < loaded.sources@.len() ==> #[trigger] load@->Complete_1[i]
                        == loaded.sources@[i]@
            },
        },
{
}

/// Notices and steps show the names in them, in their places.
pub proof fn steps_show_what_they_say(notice: Notice, step: Step, steps: Seq<Step>)
    ensures
        match notice {
            Notice::NotTable(client) => notice@ == NoticeView::NotTable(client@),
            Notice::NotArray(client, key) => notice@ == NoticeView::NotArray(client@, key@),
            Notice::NoSource(client, key) => notice@ == NoticeView::NoSource(client@, key@),
            Notice::NotText(source) => notice@ == NoticeView::NotText(source@),
            Notice::NoDestination(spec) => notice@ == NoticeView::NoDestination(spec@),
        },
        match step {
            Step::Connect { source, dest } => step@ == (StepView::Connect {
                source: source@,
                dest: dest@,
            }),
            Step::Disconnect { source, dest } => step@ == (StepView::Disconnect {
                source: source@,
                dest: dest@,
            }),
            Step::Note(noted) => step@ == StepView::Note(noted@),
        },
        step_views(steps).len() == steps.len(),
        forall|i: int| 0 <= i < steps.len() ==> #[trigger] step_views(steps)[i] == steps[i]@,
{
}

/// Actions show what is asked for, and replies how it went: of a list of ports, which ones.
pub proof fn actions_show_what_they_say(action: Action, reply: Reply, port: Seq<char>)
    ensures
        match action {
            Action::ListConnections(source) => action@ == ActionView::ListConnections(source@),
            Action::Connect(source, dest) => action@ == ActionView::Connect(source@, dest@),
            Action::Disconnect(source, dest) => action@ == ActionView::Disconnect(source@, dest@),
            Action::Note(notice) => action@ == ActionView::Note(notice@),
            Action::Done(changed) => action@ == ActionView::Done(changed),
        },
        match reply {
            Reply::Connections(dests) => reply@ is Connections && (
            reply@->Connections_0.contains(port) <==> exists|i: int|
                0 <= i < dests@.len() && (#[trigger] dests@[i])@ == port),
            Reply::Succeeded => reply@ is Succeeded,
            Reply::Failed => reply@ is Failed,
        },
{
    if let Reply::Connections(dests) = reply {
        let all = texts(dests@);
        if all.contains(port) {
            let i = choose|i: int| 0 <= i < all.len() && all[i] == port;
            assert(dests@[i]@ == port);
        }
        if exists|i: int| 0 <= i < dests@.len() && (#[trigger] dests@[i])@ == port {
            let i = choose|i: int| 0 <= i < dests@.len() && (#[trigger] dests@[i])@ == port;
            assert(all[i] == port);
        }
    }
}

/// What has been found out about a configuration, and what is left to do, show what they say.
pub proof fn events_show_what_they_say(
    event: LoadEvent,
    step: LoadStep,
    sources: Seq<(String, Stamp)>,
    refusals: Seq<Refusal>,
)
    ensures
        match event {
            LoadEvent::Stamps(now) => event@ == LoadEventView::Stamps(now@),
            LoadEvent::Loaded(loaded, stamps) => {
                &&& event@ is Loaded
                &&& event@->Loaded_0 == loaded.table@
                &&& event@->Loaded_1.len() == loaded.sources@.len()
                &&& forall|i: int|
                    0 <= i < loaded.sources@.len() ==> #[trigger] event@->Loaded_1[i]
                        == loaded.sources@[i]@
                &&& event@->Loaded_2 == stamps@
            },
            LoadEvent::Failed => event@ is Failed,
        },
        match step {
            LoadStep::Load(path) => step@ == LoadStepView::Load(path@),
            LoadStep::Ready(usable) => step@ == LoadStepView::Ready(usable),
        },
        source_views(sources).len() == sources.len(),
        forall|i: int|
            0 <= i < sources.len() ==> #[trigger] source_views(sources)[i] == (
                sources[i].0@,
                sources[i].1,
            ),
        refusal_views(refusals).len() == refusals.len(),
        forall|i: int|
            0 <= i < refusals.len() ==> #[trigger] refusal_views(refusals)[i] == (
                refusals[i].pattern@,
                refusals[i].message@,
            ),
{
}

} // verus!
