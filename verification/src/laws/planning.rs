//! What holds of the steps that a map asks for.
use vstd::prelude::*;

use crate::laws::ordering::ordered_lists_the_entries;
use crate::plan::{
    client_patterns, client_steps, destination_patterns, destination_steps, destinations_patterns,
    edge_step, is_disconnect, is_finite, key_patterns, key_steps, patterns, plan, port_spec,
    source_steps, NoticeView, StepView,
};
use crate::ports::{
    full_name, is_marked, is_pattern, literal_prefix, pattern_language, pattern_of, resolved, selects,
};
use crate::value::{
    enumerates, enumeration_is_unique, keys_of, lists_in_order, ordered, precedes, precedes_is_strict,
    TableView, Tree,
};

verus! {

/// What a spec resolves to are current ports, each as often as it is there at most.
pub proof fn resolved_ports_are_current(
    ports: Seq<Seq<char>>,
    spec: Seq<char>,
    client: Option<Seq<char>>,
    port: Seq<char>,
)
    ensures
        resolved(ports, spec, client).contains(port) ==> ports.contains(port),
        resolved(ports, spec, client).len() <= ports.len(),
{
    if let Ok(language) = pattern_language(pattern_of(spec, client)) {
        let test = |p: Seq<char>| selects(literal_prefix(client), language, p);
        ports.lemma_filter_len(test);
        if ports.filter(test).contains(port) {
            ports.lemma_filter_contains_rev(test, port);
        }
    }
    if resolved(ports, spec, client).contains(port) && !is_pattern(spec, client) {
        let i = choose|i: int|
            0 <= i < resolved(ports, spec, client).len() && resolved(ports, spec, client)[i] == port;
        assert(i == 0);
    }
}

/// A client without a marker is literal: what its keys resolve to are ports of that client and of
/// no other.
pub proof fn an_unmarked_client_has_its_own_ports(
    ports: Seq<Seq<char>>,
    spec: Seq<char>,
    client: Seq<char>,
    port: Seq<char>,
)
    requires
        !is_marked(client),
    ensures
        resolved(ports, spec, Some(client)).contains(port) ==> (client + ":"@).is_prefix_of(port),
{
    let found = resolved(ports, spec, Some(client));
    if found.contains(port) {
        if is_pattern(spec, Some(client)) {
            if let Ok(language) = pattern_language(pattern_of(spec, Some(client))) {
                let test = |p: Seq<char>| selects(literal_prefix(Some(client)), language, p);
                ports.lemma_filter_contains_rev(test, port);
            }
        } else {
            let i = choose|i: int| 0 <= i < found.len() && found[i] == port;
            assert(i == 0);
            assert((client + ":"@ + spec).take((client + ":"@).len() as int) =~= client + ":"@);
        }
    }
}

/// Without a marker in front of either, a spec stands for the port of that very name and for no
/// other.
pub proof fn an_unmarked_spec_is_a_name(
    ports: Seq<Seq<char>>,
    spec: Seq<char>,
    client: Option<Seq<char>>,
    port: Seq<char>,
)
    requires
        !is_pattern(spec, client),
    ensures
        resolved(ports, spec, client).contains(port) <==> (ports.contains(port) && port == full_name(
            spec,
            client,
        )),
{
    let found = resolved(ports, spec, client);
    if found.contains(port) {
        let i = choose|i: int| 0 <= i < found.len() && found[i] == port;
        assert(i == 0);
    }
    if ports.contains(port) && port == full_name(spec, client) {
        assert(found[0] == port);
    }
}

proof fn lemma_flat_map_contains<A, B>(items: Seq<A>, f: spec_fn(A) -> Seq<B>, x: B)
    ensures
        items.flat_map(f).contains(x) <==> exists|i: int|
            0 <= i < items.len() && f(#[trigger] items[i]).contains(x),
    decreases items.len(),
{
    let whole = items.flat_map(f);
    if items.len() == 0 {
        assert(whole =~= seq![]);
    } else {
        let rest = items.drop_last();
        lemma_flat_map_contains(rest, f, x);
        rest.lemma_flat_map_push(f, items.last());
        assert(rest.push(items.last()) =~= items);
        assert(whole =~= rest.flat_map(f) + f(items.last()));
        let head = rest.flat_map(f);
        let tail = f(items.last());
        if whole.contains(x) {
            let j = choose|j: int| 0 <= j < whole.len() && whole[j] == x;
            if j < head.len() {
                assert(head[j] == x);
                let i = choose|i: int| 0 <= i < rest.len() && f(#[trigger] rest[i]).contains(x);
                assert(f(items[i]).contains(x));
            } else {
                assert(tail[j - head.len()] == x);
                assert(f(items[items.len() - 1]).contains(x));
            }
        }
        if exists|i: int| 0 <= i < items.len() && f(#[trigger] items[i]).contains(x) {
            let i = choose|i: int| 0 <= i < items.len() && f(#[trigger] items[i]).contains(x);
            if i < items.len() - 1 {
                assert(f(rest[i]).contains(x));
                let j = choose|j: int| 0 <= j < head.len() && head[j] == x;
                assert(whole[j] == x);
            } else {
                let j = choose|j: int| 0 <= j < tail.len() && tail[j] == x;
                assert(whole[head.len() + j] == x);
            }
        }
    }
}

/// A destination of a list stands for the port `dest`.
pub open spec fn names_destination(
    ports: Seq<Seq<char>>,
    destinations: Seq<Tree>,
    dest: Seq<char>,
) -> bool {
    exists|i: int|
        0 <= i < destinations.len() && (#[trigger] destinations[i]) is Text && resolved(
            ports,
            destinations[i]->Text_0,
            None,
        ).contains(dest)
}

/// A key of a client declares the edge from `source` to `dest`: to be there, or, where the key is
/// marked, not to be there (`disconnect`).
pub open spec fn key_declares(
    ports: Seq<Seq<char>>,
    client: Seq<char>,
    key: Seq<char>,
    value: Tree,
    disconnect: bool,
    source: Seq<char>,
    dest: Seq<char>,
) -> bool {
    &&& value is Array
    &&& is_disconnect(key) == disconnect
    &&& resolved(ports, port_spec(key), Some(client)).contains(source)
    &&& names_destination(ports, value->Array_0, dest)
}

/// The entry of a client declares the edge.
pub open spec fn client_declares(
    ports: Seq<Seq<char>>,
    client: Seq<char>,
    value: Tree,
    disconnect: bool,
    source: Seq<char>,
    dest: Seq<char>,
) -> bool {
    &&& value is Table
    &&& exists|key: Seq<char>| #[trigger]
        value->Table_0.contains_key(key) && key_declares(
            ports,
            client,
            key,
            value->Table_0[key],
            disconnect,
            source,
            dest,
        )
}

/// The map declares the edge from `source` to `dest`: to be there, or not to be there
/// (`disconnect`).
pub open spec fn declares(
    ports: Seq<Seq<char>>,
    config: TableView,
    disconnect: bool,
    source: Seq<char>,
    dest: Seq<char>,
) -> bool {
    exists|client: Seq<char>| #[trigger]
        config.contains_key(client) && client_declares(
            ports,
            client,
            config[client],
            disconnect,
            source,
            dest,
        )
}

proof fn lemma_destination_steps(
    ports: Seq<Seq<char>>,
    marked: bool,
    from: Seq<char>,
    destination: Tree,
    disconnect: bool,
    source: Seq<char>,
    dest: Seq<char>,
)
    ensures
        destination_steps(ports, marked, from, destination).contains(
            edge_step(disconnect, source, dest),
        ) <==> (marked == disconnect && from == source && destination is Text && resolved(
            ports,
            destination->Text_0,
            None,
        ).contains(dest)),
{
    let steps = destination_steps(ports, marked, from, destination);
    let step = edge_step(disconnect, source, dest);
    if let Tree::Text(spec) = destination {
        let found = resolved(ports, spec, None);
        if found.len() == 0 {
            if steps.contains(step) {
                let i = choose|i: int| 0 <= i < steps.len() && steps[i] == step;
                assert(i == 0);
            }
        } else {
            if steps.contains(step) {
                let i = choose|i: int| 0 <= i < steps.len() && steps[i] == step;
                assert(steps[i] == edge_step(marked, from, found[i]));
                assert(found[i] == dest);
            }
            if found.contains(dest) && marked == disconnect && from == source {
                let i = choose|i: int| 0 <= i < found.len() && found[i] == dest;
                assert(steps[i] == step);
            }
        }
    } else {
        if steps.contains(step) {
            let i = choose|i: int| 0 <= i < steps.len() && steps[i] == step;
            assert(i == 0);
        }
    }
}

proof fn lemma_source_steps(
    ports: Seq<Seq<char>>,
    marked: bool,
    from: Seq<char>,
    destinations: Seq<Tree>,
    disconnect: bool,
    source: Seq<char>,
    dest: Seq<char>,
)
    ensures
        source_steps(ports, marked, from, destinations).contains(
            edge_step(disconnect, source, dest),
        ) <==> (marked == disconnect && from == source && names_destination(
            ports,
            destinations,
            dest,
        )),
{
    let f = |d: Tree| destination_steps(ports, marked, from, d);
    let step = edge_step(disconnect, source, dest);
    lemma_flat_map_contains(destinations, f, step);
    assert forall|i: int| 0 <= i < destinations.len() implies f(#[trigger] destinations[i]).contains(
        step,
    ) == (marked == disconnect && from == source && destinations[i] is Text && resolved(
        ports,
        destinations[i]->Text_0,
        None,
    ).contains(dest)) by {
        lemma_destination_steps(ports, marked, from, destinations[i], disconnect, source, dest);
    }
}

proof fn lemma_key_steps(
    ports: Seq<Seq<char>>,
    client: Seq<char>,
    key: Seq<char>,
    value: Tree,
    disconnect: bool,
    source: Seq<char>,
    dest: Seq<char>,
)
    ensures
        key_steps(ports, client, key, value).contains(edge_step(disconnect, source, dest))
            <==> key_declares(ports, client, key, value, disconnect, source, dest),
{
    let steps = key_steps(ports, client, key, value);
    let step = edge_step(disconnect, source, dest);
    if let Tree::Array(destinations) = value {
        let found = resolved(ports, port_spec(key), Some(client));
        if found.len() == 0 {
            if steps.contains(step) {
                let i = choose|i: int| 0 <= i < steps.len() && steps[i] == step;
                assert(i == 0);
            }
        } else {
            let f = |from: Seq<char>| source_steps(ports, is_disconnect(key), from, destinations);
            lemma_flat_map_contains(found, f, step);
            assert forall|i: int| 0 <= i < found.len() implies f(#[trigger] found[i]).contains(step)
                == (is_disconnect(key) == disconnect && found[i] == source && names_destination(
                ports,
                destinations,
                dest,
            )) by {
                lemma_source_steps(
                    ports,
                    is_disconnect(key),
                    found[i],
                    destinations,
                    disconnect,
                    source,
                    dest,
                );
            }
            if key_declares(ports, client, key, value, disconnect, source, dest) {
                let i = choose|i: int| 0 <= i < found.len() && found[i] == source;
                assert(f(found[i]).contains(step));
            }
        }
    } else {
        if steps.contains(step) {
            let i = choose|i: int| 0 <= i < steps.len() && steps[i] == step;
            assert(i == 0);
        }
    }
}

proof fn lemma_client_steps(
    ports: Seq<Seq<char>>,
    client: Seq<char>,
    value: Tree,
    disconnect: bool,
    source: Seq<char>,
    dest: Seq<char>,
)
    requires
        value is Table ==> value->Table_0.dom().finite(),
    ensures
        client_steps(ports, client, value).contains(edge_step(disconnect, source, dest))
            <==> client_declares(ports, client, value, disconnect, source, dest),
{
    let steps = client_steps(ports, client, value);
    let step = edge_step(disconnect, source, dest);
    if let Tree::Table(keys) = value {
        ordered_lists_the_entries(keys);
        let entries = ordered(keys);
        let f = |entry: (Seq<char>, Tree)| key_steps(ports, client, entry.0, entry.1);
        lemma_flat_map_contains(entries, f, step);
        assert forall|i: int| 0 <= i < entries.len() implies f(#[trigger] entries[i]).contains(step)
            == key_declares(
            ports,
            client,
            entries[i].0,
            entries[i].1,
            disconnect,
            source,
            dest,
        ) by {
            lemma_key_steps(
                ports,
                client,
                entries[i].0,
                entries[i].1,
                disconnect,
                source,
                dest,
            );
        }
        if steps.contains(step) {
            let i = choose|i: int| 0 <= i < entries.len() && f(#[trigger] entries[i]).contains(step);
            assert(keys_of(entries)[i] == entries[i].0);
            assert(keys.contains_key(entries[i].0));
        }
        if client_declares(ports, client, value, disconnect, source, dest) {
            let key = choose|key: Seq<char>| #[trigger]
                keys.contains_key(key) && key_declares(
                    ports,
                    client,
                    key,
                    keys[key],
                    disconnect,
                    source,
                    dest,
                );
            assert(keys_of(entries).contains(key));
            let i = choose|i: int| 0 <= i < keys_of(entries).len() && keys_of(entries)[i] == key;
            assert(entries[i].0 == key);
            assert(f(entries[i]).contains(step));
        }
    } else {
        if steps.contains(step) {
            let i = choose|i: int| 0 <= i < steps.len() && steps[i] == step;
            assert(i == 0);
        }
    }
}

/// A pass asks for the edges that the map declares between current ports, and for no others.
pub proof fn steps_are_the_declared_edges(
    ports: Seq<Seq<char>>,
    config: TableView,
    disconnect: bool,
    source: Seq<char>,
    dest: Seq<char>,
)
    requires
        is_finite(config),
    ensures
        plan(ports, config).contains(edge_step(disconnect, source, dest)) <==> declares(
            ports,
            config,
            disconnect,
            source,
            dest,
        ),
{
    ordered_lists_the_entries(config);
    let entries = ordered(config);
    let step = edge_step(disconnect, source, dest);
    let f = |entry: (Seq<char>, Tree)| client_steps(ports, entry.0, entry.1);
    lemma_flat_map_contains(entries, f, step);
    assert forall|i: int| 0 <= i < entries.len() implies f(#[trigger] entries[i]).contains(step)
        == client_declares(ports, entries[i].0, entries[i].1, disconnect, source, dest) by {
        assert(keys_of(entries)[i] == entries[i].0);
        assert(config.contains_key(entries[i].0));
        lemma_client_steps(ports, entries[i].0, entries[i].1, disconnect, source, dest);
    }
    if plan(ports, config).contains(step) {
        let i = choose|i: int| 0 <= i < entries.len() && f(#[trigger] entries[i]).contains(step);
        assert(keys_of(entries)[i] == entries[i].0);
        assert(config.contains_key(entries[i].0));
    }
    if declares(ports, config, disconnect, source, dest) {
        let client = choose|client: Seq<char>| #[trigger]
            config.contains_key(client) && client_declares(
                ports,
                client,
                config[client],
                disconnect,
                source,
                dest,
            );
        assert(keys_of(entries).contains(client));
        let i = choose|i: int| 0 <= i < keys_of(entries).len() && keys_of(entries)[i] == client;
        assert(entries[i].0 == client);
        assert(f(entries[i]).contains(step));
    }
}

/// An edge that is declared joins two current ports.
pub proof fn declared_edges_join_current_ports(
    ports: Seq<Seq<char>>,
    config: TableView,
    disconnect: bool,
    source: Seq<char>,
    dest: Seq<char>,
)
    requires
        declares(ports, config, disconnect, source, dest),
    ensures
        ports.contains(source),
        ports.contains(dest),
{
    let client = choose|client: Seq<char>| #[trigger]
        config.contains_key(client) && client_declares(
            ports,
            client,
            config[client],
            disconnect,
            source,
            dest,
        );
    let keys = config[client]->Table_0;
    let key = choose|key: Seq<char>| #[trigger]
        keys.contains_key(key) && key_declares(
            ports,
            client,
            key,
            keys[key],
            disconnect,
            source,
            dest,
        );
    resolved_ports_are_current(ports, port_spec(key), Some(client), source);
    let destinations = keys[key]->Array_0;
    let i = choose|i: int|
        0 <= i < destinations.len() && (#[trigger] destinations[i]) is Text && resolved(
            ports,
            destinations[i]->Text_0,
            None,
        ).contains(dest);
    resolved_ports_are_current(ports, destinations[i]->Text_0, None, dest);
}

/// Splitting the marker off a key loses nothing, and splits off nothing else.
pub proof fn splitting_a_key(key: Seq<char>)
    ensures
        is_disconnect(key) <==> "disconnect:"@.is_prefix_of(key),
        is_disconnect(key) ==> "disconnect:"@ + port_spec(key) == key,
        !is_disconnect(key) ==> port_spec(key) == key,
{
    if is_disconnect(key) {
        assert("disconnect:"@ + port_spec(key) =~= key);
    }
}

proof fn lemma_flat_map_of_two<A, B>(first: Seq<A>, second: Seq<A>, f: spec_fn(A) -> Seq<B>)
    ensures
        (first + second).flat_map(f) == first.flat_map(f) + second.flat_map(f),
    decreases second.len(),
{
    if second.len() == 0 {
        assert(first + second =~= first);
        assert(second.flat_map(f) =~= seq![]);
        assert(first.flat_map(f) + second.flat_map(f) =~= first.flat_map(f));
    } else {
        let rest = second.drop_last();
        lemma_flat_map_of_two(first, rest, f);
        assert(rest.push(second.last()) =~= second);
        assert((first + rest).push(second.last()) =~= first + second);
        rest.lemma_flat_map_push(f, second.last());
        (first + rest).lemma_flat_map_push(f, second.last());
        assert(first.flat_map(f) + second.flat_map(f) =~= first.flat_map(f) + rest.flat_map(f) + f(
            second.last(),
        ));
    }
}

proof fn lemma_ordered_in_two(a: TableView, b: TableView)
    requires
        a.dom().finite(),
        b.dom().finite(),
        forall|x: Seq<char>, y: Seq<char>|
            a.contains_key(x) && b.contains_key(y) ==> #[trigger] precedes(x, y),
    ensures
        ordered(a.union_prefer_right(b)) == ordered(a) + ordered(b),
{
    let whole = a.union_prefer_right(b);
    let (x, y) = (ordered(a), ordered(b));
    let all = x + y;
    ordered_lists_the_entries(a);
    ordered_lists_the_entries(b);
    let (kx, ky, keys) = (keys_of(x), keys_of(y), keys_of(all));
    assert(keys =~= kx + ky);
    assert forall|key: Seq<char>| a.contains_key(key) implies !b.contains_key(key) by {
        if b.contains_key(key) {
            assert(precedes(key, key));
            precedes_is_strict(key, key);
        }
    }
    assert(lists_in_order(keys, whole.dom())) by {
        assert forall|i: int, j: int| 0 <= i < j < keys.len() implies precedes(keys[i], keys[j]) by {
            if j < kx.len() {
                assert(precedes(kx[i], kx[j]));
            } else if i >= kx.len() {
                assert(precedes(ky[i - kx.len()], ky[j - kx.len()]));
            } else {
                assert(a.dom().contains(kx[i]));
                assert(b.dom().contains(ky[j - kx.len()]));
            }
        }
        assert forall|i: int| 0 <= i < keys.len() implies whole.dom().contains(
            #[trigger] keys[i],
        ) by {
            if i < kx.len() {
                assert(a.dom().contains(kx[i]));
            } else {
                assert(b.dom().contains(ky[i - kx.len()]));
            }
        }
        assert forall|key: Seq<char>| whole.dom().contains(key) implies keys.contains(key) by {
            if b.contains_key(key) {
                let j = choose|j: int| 0 <= j < ky.len() && ky[j] == key;
                assert(keys[kx.len() + j] == key);
            } else {
                let j = choose|j: int| 0 <= j < kx.len() && kx[j] == key;
                assert(keys[j] == key);
            }
        }
    }
    assert forall|i: int| 0 <= i < all.len() implies whole[(#[trigger] all[i]).0] == all[i].1 by {
        if i < x.len() {
            assert(kx[i] == x[i].0);
            assert(a.dom().contains(kx[i]));
            assert(a[x[i].0] == x[i].1);
        } else {
            let j = i - x.len();
            assert(ky[j] == y[j].0);
            assert(b.dom().contains(ky[j]));
            assert(b[y[j].0] == y[j].1);
        }
    }
    enumeration_is_unique(all, whole);
}

/// Clients are planned in the order of their names: a map of two parts, where all clients of the
/// first come before those of the second, asks for what the first part asks for and then for what
/// the second does. An empty map asks for nothing.
pub proof fn clients_are_planned_in_order(ports: Seq<Seq<char>>, a: TableView, b: TableView)
    requires
        a.dom().finite(),
        b.dom().finite(),
        forall|x: Seq<char>, y: Seq<char>|
            a.contains_key(x) && b.contains_key(y) ==> #[trigger] precedes(x, y),
    ensures
        plan(ports, TableView::empty()) == Seq::<StepView>::empty(),
        plan(ports, a.union_prefer_right(b)) == plan(ports, a) + plan(ports, b),
{
    let f = |entry: (Seq<char>, Tree)| client_steps(ports, entry.0, entry.1);
    lemma_ordered_in_two(a, b);
    lemma_flat_map_of_two(ordered(a), ordered(b), f);
    lemma_nothing_to_order();
    assert(ordered(TableView::empty()).flat_map(f) =~= seq![]);
}

proof fn lemma_nothing_to_order()
    ensures
        ordered(TableView::empty()) == Seq::<(Seq<char>, Tree)>::empty(),
{
    let none = Seq::<(Seq<char>, Tree)>::empty();
    assert(keys_of(none) =~= seq![]);
    assert(enumerates(none, TableView::empty()));
    enumeration_is_unique(none, TableView::empty());
}

proof fn lemma_one_to_order(key: Seq<char>, value: Tree)
    ensures
        ordered(TableView::empty().insert(key, value)) == seq![(key, value)],
{
    let table = TableView::empty().insert(key, value);
    let one = seq![(key, value)];
    assert(keys_of(one) =~= seq![key]);
    assert(lists_in_order(keys_of(one), table.dom())) by {
        assert forall|k: Seq<char>| table.dom().contains(k) implies keys_of(one).contains(k) by {
            assert(keys_of(one)[0] == k);
        }
    }
    enumeration_is_unique(one, table);
}

proof fn lemma_one_client(ports: Seq<Seq<char>>, client: Seq<char>, value: Tree)
    ensures
        plan(ports, TableView::empty().insert(client, value)) == client_steps(ports, client, value),
{
    let f = |entry: (Seq<char>, Tree)| client_steps(ports, entry.0, entry.1);
    lemma_one_to_order(client, value);
    seq![(client, value)].lemma_flat_map_singleton(f);
}

/// The keys of a client are planned in their order: a table of two parts, where all keys of the
/// first come before those of the second, asks for what the first part asks for and then for what
/// the second does. An empty table asks for nothing, and what is no table is noted.
pub proof fn keys_are_planned_in_order(
    ports: Seq<Seq<char>>,
    client: Seq<char>,
    a: TableView,
    b: TableView,
    value: Tree,
)
    requires
        a.dom().finite(),
        b.dom().finite(),
        forall|x: Seq<char>, y: Seq<char>|
            a.contains_key(x) && b.contains_key(y) ==> #[trigger] precedes(x, y),
    ensures
        plan(
            ports,
            TableView::empty().insert(client, Tree::Table(a.union_prefer_right(b))),
        ) == plan(ports, TableView::empty().insert(client, Tree::Table(a))) + plan(
            ports,
            TableView::empty().insert(client, Tree::Table(b)),
        ),
        plan(ports, TableView::empty().insert(client, Tree::Table(TableView::empty()))) == Seq::<
            StepView,
        >::empty(),
        !(value is Table) ==> plan(ports, TableView::empty().insert(client, value))
            == seq![StepView::Note(NoticeView::NotTable(client))],
{
    let f = |entry: (Seq<char>, Tree)| key_steps(ports, client, entry.0, entry.1);
    lemma_one_client(ports, client, Tree::Table(a.union_prefer_right(b)));
    lemma_one_client(ports, client, Tree::Table(a));
    lemma_one_client(ports, client, Tree::Table(b));
    lemma_one_client(ports, client, Tree::Table(TableView::empty()));
    lemma_one_client(ports, client, value);
    lemma_ordered_in_two(a, b);
    lemma_flat_map_of_two(ordered(a), ordered(b), f);
    lemma_nothing_to_order();
    assert(ordered(TableView::empty()).flat_map(f) =~= seq![]);
}

/// One key of one client. What is no list is noted, and so is a key without a current port. Each
/// source port that the key stands for is planned in turn, with each destination in turn: one that
/// is no text or stands for no current port is noted, and else there is a step for each port that
/// it stands for. The steps connect, or disconnect where the key begins with the marker, which is
/// not part of the port spec.
pub proof fn a_key_is_planned_port_by_port(
    ports: Seq<Seq<char>>,
    client: Seq<char>,
    spec: Seq<char>,
    value: Tree,
    destinations: Seq<Tree>,
    disconnect: bool,
)
    requires
        disconnect || !"disconnect:"@.is_prefix_of(spec),
    ensures
        ({
            let key = if disconnect {
                "disconnect:"@ + spec
            } else {
                spec
            };
            let sources = resolved(ports, spec, Some(client));
            let steps = plan(
                ports,
                TableView::empty().insert(
                    client,
                    Tree::Table(TableView::empty().insert(key, Tree::Array(destinations))),
                ),
            );
            &&& !(value is Array) ==> plan(
                ports,
                TableView::empty().insert(
                    client,
                    Tree::Table(TableView::empty().insert(key, value)),
                ),
            ) == seq![StepView::Note(NoticeView::NotArray(client, spec))]
            &&& sources.len() == 0 ==> steps == seq![
                StepView::Note(NoticeView::NoSource(client, spec)),
            ]
            &&& sources.len() > 0 ==> steps == sources.flat_map(
                |source: Seq<char>|
                    destinations.flat_map(
                        |d: Tree|
                            if !(d is Text) {
                                seq![StepView::Note(NoticeView::NotText(source))]
                            } else if resolved(ports, d->Text_0, None).len() == 0 {
                                seq![StepView::Note(NoticeView::NoDestination(d->Text_0))]
                            } else {
                                resolved(ports, d->Text_0, None).map_values(
                                    |dest: Seq<char>|
                                        if disconnect {
                                            StepView::Disconnect { source, dest }
                                        } else {
                                            StepView::Connect { source, dest }
                                        },
                                )
                            },
                    ),
            )
        }),
{
    let key = if disconnect {
        "disconnect:"@ + spec
    } else {
        spec
    };
    let sources = resolved(ports, spec, Some(client));
    if disconnect {
        assert(key.take("disconnect:"@.len() as int) =~= "disconnect:"@);
        assert(key.skip("disconnect:"@.len() as int) =~= spec);
    }
    assert(is_disconnect(key) == disconnect && port_spec(key) == spec);
    let f = |entry: (Seq<char>, Tree)| key_steps(ports, client, entry.0, entry.1);
    let one = TableView::empty().insert(key, Tree::Array(destinations));
    lemma_one_client(ports, client, Tree::Table(one));
    lemma_one_to_order(key, Tree::Array(destinations));
    seq![(key, Tree::Array(destinations))].lemma_flat_map_singleton(f);
    lemma_one_client(ports, client, Tree::Table(TableView::empty().insert(key, value)));
    lemma_one_to_order(key, value);
    seq![(key, value)].lemma_flat_map_singleton(f);
    let by_source = |source: Seq<char>| source_steps(ports, disconnect, source, destinations);
    let written_out = |source: Seq<char>|
        destinations.flat_map(
            |d: Tree|
                if !(d is Text) {
                    seq![StepView::Note(NoticeView::NotText(source))]
                } else if resolved(ports, d->Text_0, None).len() == 0 {
                    seq![StepView::Note(NoticeView::NoDestination(d->Text_0))]
                } else {
                    resolved(ports, d->Text_0, None).map_values(
                        |dest: Seq<char>|
                            if disconnect {
                                StepView::Disconnect { source, dest }
                            } else {
                                StepView::Connect { source, dest }
                            },
                    )
                },
        );
    assert forall|source: Seq<char>| #[trigger] by_source(source) == written_out(source) by {
        let g = |d: Tree| destination_steps(ports, disconnect, source, d);
        let h = |d: Tree|
            if !(d is Text) {
                seq![StepView::Note(NoticeView::NotText(source))]
            } else if resolved(ports, d->Text_0, None).len() == 0 {
                seq![StepView::Note(NoticeView::NoDestination(d->Text_0))]
            } else {
                resolved(ports, d->Text_0, None).map_values(
                    |dest: Seq<char>|
                        if disconnect {
                            StepView::Disconnect { source, dest }
                        } else {
                            StepView::Connect { source, dest }
                        },
                )
            };
        assert forall|d: Tree| #[trigger] g(d) == h(d) by {
            assert(g(d) =~= h(d));
        }
        lemma_same_flat_map(destinations, g, h);
    }
    lemma_same_flat_map(sources, by_source, written_out);
}

proof fn lemma_same_flat_map<A, B>(
    items: Seq<A>,
    f: spec_fn(A) -> Seq<B>,
    g: spec_fn(A) -> Seq<B>,
)
    requires
        forall|x: A| #[trigger] f(x) == g(x),
    ensures
        items.flat_map(f) == items.flat_map(g),
    decreases items.len(),
{
    if items.len() == 0 {
        assert(items.flat_map(f) =~= items.flat_map(g));
    } else {
        let rest = items.drop_last();
        lemma_same_flat_map(rest, f, g);
        assert(rest.push(items.last()) =~= items);
        rest.lemma_flat_map_push(f, items.last());
        rest.lemma_flat_map_push(g, items.last());
        assert(f(items.last()) == g(items.last()));
        assert(items.flat_map(f) =~= items.flat_map(g));
    }
}

/// The pattern is looked up for a key of a client, or for one of its destinations where the key
/// stands for a current port.
pub open spec fn is_looked_up(
    ports: Seq<Seq<char>>,
    client: Seq<char>,
    key: Seq<char>,
    destinations: Seq<Tree>,
    pattern: Seq<char>,
) -> bool {
    let spec = if "disconnect:"@.is_prefix_of(key) {
        key.skip("disconnect:"@.len() as int)
    } else {
        key
    };
    ||| ("regex:"@.is_prefix_of(spec) || "regex:"@.is_prefix_of(client)) && pattern == pattern_of(
        spec,
        Some(client),
    )
    ||| resolved(ports, spec, Some(client)).len() > 0 && exists|i: int|
        0 <= i < destinations.len() && (#[trigger] destinations[i]) is Text
            && "regex:"@.is_prefix_of(destinations[i]->Text_0) && pattern == pattern_of(
            destinations[i]->Text_0,
            None,
        )
}

proof fn lemma_key_patterns(
    ports: Seq<Seq<char>>,
    client: Seq<char>,
    key: Seq<char>,
    destinations: Seq<Tree>,
    pattern: Seq<char>,
)
    ensures
        key_patterns(ports, client, key, Tree::Array(destinations)).contains(pattern)
            <==> is_looked_up(ports, client, key, destinations, pattern),
{
    let g = |d: Tree| destination_patterns(d);
    if destinations_patterns(destinations).contains(pattern) {
        let i = choose|i: int|
            0 <= i < destinations.len() && g(#[trigger] destinations[i]).contains(pattern);
        assert(destinations[i] is Text);
    }
    if exists|i: int|
        0 <= i < destinations.len() && (#[trigger] destinations[i]) is Text
            && "regex:"@.is_prefix_of(destinations[i]->Text_0) && pattern == pattern_of(
            destinations[i]->Text_0,
            None,
        ) {
        let i = choose|i: int|
            0 <= i < destinations.len() && (#[trigger] destinations[i]) is Text
                && "regex:"@.is_prefix_of(destinations[i]->Text_0) && pattern == pattern_of(
                destinations[i]->Text_0,
                None,
            );
        assert(g(destinations[i]).contains(pattern));
    }
}

/// The patterns that a pass looks up are those of the keys with a list, and those of the
/// destinations of keys that stand for a current port, all of them and no others.
pub proof fn patterns_are_those_of_the_map(
    ports: Seq<Seq<char>>,
    config: TableView,
    pattern: Seq<char>,
)
    requires
        is_finite(config),
    ensures
        patterns(ports, config).contains(pattern) <==> exists|client: Seq<char>, key: Seq<char>|
            {
                &&& #[trigger] config.contains_key(client) && config[client] is Table
                &&& #[trigger] config[client]->Table_0.contains_key(key)
                &&& config[client]->Table_0[key] is Array
                &&& is_looked_up(
                    ports,
                    client,
                    key,
                    config[client]->Table_0[key]->Array_0,
                    pattern,
                )
            },
{
    ordered_lists_the_entries(config);
    let entries = ordered(config);
    let g = |entry: (Seq<char>, Tree)| client_patterns(ports, entry.0, entry.1);
    if patterns(ports, config).contains(pattern) {
        let i = choose|i: int| 0 <= i < entries.len() && g(#[trigger] entries[i]).contains(pattern);
        let client = entries[i].0;
        assert(keys_of(entries)[i] == client);
        assert(config.contains_key(client) && config[client] == entries[i].1);
        let keys = config[client]->Table_0;
        ordered_lists_the_entries(keys);
        let inner = ordered(keys);
        let h = |entry: (Seq<char>, Tree)| key_patterns(ports, client, entry.0, entry.1);
        let j = choose|j: int| 0 <= j < inner.len() && h(#[trigger] inner[j]).contains(pattern);
        let key = inner[j].0;
        assert(keys_of(inner)[j] == key);
        assert(keys.contains_key(key) && keys[key] == inner[j].1);
        lemma_key_patterns(ports, client, key, keys[key]->Array_0, pattern);
    }
    if exists|client: Seq<char>, key: Seq<char>|
        {
            &&& #[trigger] config.contains_key(client) && config[client] is Table
            &&& #[trigger] config[client]->Table_0.contains_key(key)
            &&& config[client]->Table_0[key] is Array
            &&& is_looked_up(ports, client, key, config[client]->Table_0[key]->Array_0, pattern)
        } {
        let (client, key) = choose|client: Seq<char>, key: Seq<char>|
            {
                &&& #[trigger] config.contains_key(client) && config[client] is Table
                &&& #[trigger] config[client]->Table_0.contains_key(key)
                &&& config[client]->Table_0[key] is Array
                &&& is_looked_up(ports, client, key, config[client]->Table_0[key]->Array_0, pattern)
            };
        let keys = config[client]->Table_0;
        lemma_key_patterns(ports, client, key, keys[key]->Array_0, pattern);
        ordered_lists_the_entries(keys);
        let inner = ordered(keys);
        let h = |entry: (Seq<char>, Tree)| key_patterns(ports, client, entry.0, entry.1);
        assert(keys_of(inner).contains(key));
        let j = choose|j: int| 0 <= j < keys_of(inner).len() && keys_of(inner)[j] == key;
        assert(inner[j].0 == key);
        assert(h(inner[j]).contains(pattern));
        assert(keys_of(entries).contains(client));
        let i = choose|i: int| 0 <= i < keys_of(entries).len() && keys_of(entries)[i] == client;
        assert(entries[i].0 == client);
        assert(g(entries[i]).contains(pattern));
    }
}

/// A map is finite just where it has finitely many keys and so has every table in it.
pub proof fn what_a_finite_map_is(config: TableView)
    ensures
        is_finite(config) <==> (config.dom().finite() && forall|client: Seq<char>| #[trigger]
            config.contains_key(client) && config[client] is Table
                ==> config[client]->Table_0.dom().finite()),
{
}

} // verus!
