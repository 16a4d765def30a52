//! Planning one pass: the declared edges, resolved against the current ports.
//!
//!   * table key  = source (output) port short-name, optionally `disconnect:`- or
//!     `regex:`-prefixed;
//!   * array value = destination (input) port full-names, optionally `regex:`.
use vstd::prelude::*;

use crate::ports::{is_pattern, pattern_of, resolve_ports, resolved, Ports, RegexCache};
use crate::text::{after_prefix, texts};
use crate::value::{
    entry_ref_views, enumeration_is_unique, keys_of, lemma_array_view, listed_is_finite, ordered,
    trees, ConfigValue, Table, TableView, Tree,
};

verus! {

/// Why a part of the map asks for nothing in this pass.
#[derive(Debug, PartialEq, Eq)]
pub enum Notice {
    /// The entry of this client is not a table.
    NotTable(String),
    /// The value of this client's key is not an array.
    NotArray(String, String),
    /// No current port is meant by this client's key.
    NoSource(String, String),
    /// A destination of this source port is not a string.
    NotText(String),
    /// No current port is meant by this destination.
    NoDestination(String),
}

/// What a [`Notice`] says.
pub enum NoticeView {
    NotTable(Seq<char>),
    NotArray(Seq<char>, Seq<char>),
    NoSource(Seq<char>, Seq<char>),
    NotText(Seq<char>),
    NoDestination(Seq<char>),
}

/// One step of a pass.
#[derive(Debug, PartialEq, Eq)]
pub enum Step {
    /// The edge from `source` to `dest` shall be there.
    Connect { source: String, dest: String },
    /// The edge from `source` to `dest` shall not be there.
    Disconnect { source: String, dest: String },
    /// A part of the map asks for nothing.
    Note(Notice),
}

/// What a [`Step`] says.
pub enum StepView {
    Connect { source: Seq<char>, dest: Seq<char> },
    Disconnect { source: Seq<char>, dest: Seq<char> },
    Note(NoticeView),
}

impl View for Notice {
    type V = NoticeView;

    open spec fn view(&self) -> NoticeView {
        match self {
            Notice::NotTable(client) => NoticeView::NotTable(client@),
            Notice::NotArray(client, key) => NoticeView::NotArray(client@, key@),
            Notice::NoSource(client, key) => NoticeView::NoSource(client@, key@),
            Notice::NotText(source) => NoticeView::NotText(source@),
            Notice::NoDestination(spec) => NoticeView::NoDestination(spec@),
        }
    }
}

impl Notice {
    /// A notice that says the same.
    pub fn copy(&self) -> (copy: Notice)
        ensures
            copy@ == self@,
    {
        match self {
            Notice::NotTable(client) => Notice::NotTable(client.clone()),
            Notice::NotArray(client, key) => Notice::NotArray(client.clone(), key.clone()),
            Notice::NoSource(client, key) => Notice::NoSource(client.clone(), key.clone()),
            Notice::NotText(source) => Notice::NotText(source.clone()),
            Notice::NoDestination(spec) => Notice::NoDestination(spec.clone()),
        }
    }
}

impl View for Step {
    type V = StepView;

    open spec fn view(&self) -> StepView {
        match self {
            Step::Connect { source, dest } => StepView::Connect { source: source@, dest: dest@ },
            Step::Disconnect { source, dest } => StepView::Disconnect {
                source: source@,
                dest: dest@,
            },
            Step::Note(notice) => StepView::Note(notice@),
        }
    }
}

/// What each of a list of steps says.
pub open spec fn step_views(steps: Seq<Step>) -> Seq<StepView> {
    steps.map_values(|step: Step| step@)
}

/// The key is marked to remove edges instead of adding them.
pub open spec fn is_disconnect(key: Seq<char>) -> bool {
    "disconnect:"@.is_prefix_of(key)
}

/// The port spec of a key: what follows the marker, where there is one.
pub open spec fn port_spec(key: Seq<char>) -> Seq<char> {
    if is_disconnect(key) {
        key.skip("disconnect:"@.len() as int)
    } else {
        key
    }
}

/// The step for one edge.
pub open spec fn edge_step(disconnect: bool, source: Seq<char>, dest: Seq<char>) -> StepView {
    if disconnect {
        StepView::Disconnect { source, dest }
    } else {
        StepView::Connect { source, dest }
    }
}

/// The steps for one destination of a source port: one for each port that it stands for.
pub open spec fn destination_steps(
    ports: Seq<Seq<char>>,
    disconnect: bool,
    source: Seq<char>,
    destination: Tree,
) -> Seq<StepView> {
    match destination {
        Tree::Text(spec) => {
            let found = resolved(ports, spec, None);
            if found.len() == 0 {
                seq![StepView::Note(NoticeView::NoDestination(spec))]
            } else {
                found.map_values(|dest: Seq<char>| edge_step(disconnect, source, dest))
            }
        },
        _ => seq![StepView::Note(NoticeView::NotText(source))],
    }
}

/// The steps for one source port: those of its destinations in turn.
pub open spec fn source_steps(
    ports: Seq<Seq<char>>,
    disconnect: bool,
    source: Seq<char>,
    destinations: Seq<Tree>,
) -> Seq<StepView> {
    destinations.flat_map(|d: Tree| destination_steps(ports, disconnect, source, d))
}

/// The steps for one key of a client: those of the source ports that it stands for in turn.
pub open spec fn key_steps(
    ports: Seq<Seq<char>>,
    client: Seq<char>,
    key: Seq<char>,
    value: Tree,
) -> Seq<StepView> {
    match value {
        Tree::Array(destinations) => {
            let found = resolved(ports, port_spec(key), Some(client));
            if found.len() == 0 {
                seq![StepView::Note(NoticeView::NoSource(client, port_spec(key)))]
            } else {
                found.flat_map(
                    |source: Seq<char>|
                        source_steps(ports, is_disconnect(key), source, destinations),
                )
            }
        },
        _ => seq![StepView::Note(NoticeView::NotArray(client, port_spec(key)))],
    }
}

/// The steps for one client: those of its keys in turn.
pub open spec fn client_steps(
    ports: Seq<Seq<char>>,
    client: Seq<char>,
    value: Tree,
) -> Seq<StepView> {
    match value {
        Tree::Table(keys) => ordered(keys).flat_map(
            |entry: (Seq<char>, Tree)| key_steps(ports, client, entry.0, entry.1),
        ),
        _ => seq![StepView::Note(NoticeView::NotTable(client))],
    }
}

/// The steps that a connection map asks for: those of its clients in turn.
pub open spec fn plan(ports: Seq<Seq<char>>, config: TableView) -> Seq<StepView> {
    ordered(config).flat_map(
        |entry: (Seq<char>, Tree)| client_steps(ports, entry.0, entry.1),
    )
}

/// The map and the tables in it have finitely many keys, as every table has.
pub open spec fn is_finite(config: TableView) -> bool {
    &&& config.dom().finite()
    &&& forall|client: Seq<char>| #[trigger]
        config.contains_key(client) && config[client] is Table
            ==> config[client]->Table_0.dom().finite()
}

/// Everything that `f` gives for the items of a list.
pub open spec fn union_over<A>(items: Seq<A>, f: spec_fn(A) -> Set<Seq<char>>) -> Set<Seq<char>> {
    Set::new(|x: Seq<char>| exists|i: int| 0 <= i < items.len() && f(#[trigger] items[i]).contains(x))
}

/// The regular expression that is looked up to resolve a spec, if there is one.
pub open spec fn spec_patterns(spec: Seq<char>, client: Option<Seq<char>>) -> Set<Seq<char>> {
    if is_pattern(spec, client) {
        set![pattern_of(spec, client)]
    } else {
        set![]
    }
}

/// The regular expressions that are looked up to plan one destination.
pub open spec fn destination_patterns(destination: Tree) -> Set<Seq<char>> {
    match destination {
        Tree::Text(spec) => spec_patterns(spec, None),
        _ => set![],
    }
}

/// The regular expressions that are looked up to plan a list of destinations.
pub open spec fn destinations_patterns(destinations: Seq<Tree>) -> Set<Seq<char>> {
    union_over(destinations, |d: Tree| destination_patterns(d))
}

/// The regular expressions that are looked up to plan one key of a client.
pub open spec fn key_patterns(
    ports: Seq<Seq<char>>,
    client: Seq<char>,
    key: Seq<char>,
    value: Tree,
) -> Set<Seq<char>> {
    match value {
        Tree::Array(destinations) => {
            let of_key = spec_patterns(port_spec(key), Some(client));
            if resolved(ports, port_spec(key), Some(client)).len() == 0 {
                of_key
            } else {
                of_key.union(destinations_patterns(destinations))
            }
        },
        _ => set![],
    }
}

/// The regular expressions that are looked up to plan one client.
pub open spec fn client_patterns(
    ports: Seq<Seq<char>>,
    client: Seq<char>,
    value: Tree,
) -> Set<Seq<char>> {
    match value {
        Tree::Table(keys) => union_over(
            ordered(keys),
            |entry: (Seq<char>, Tree)| key_patterns(ports, client, entry.0, entry.1),
        ),
        _ => set![],
    }
}

/// The regular expressions that are looked up to plan a pass.
pub open spec fn patterns(ports: Seq<Seq<char>>, config: TableView) -> Set<Seq<char>> {
    union_over(
        ordered(config),
        |entry: (Seq<char>, Tree)| client_patterns(ports, entry.0, entry.1),
    )
}

proof fn lemma_union_over_next<A>(items: Seq<A>, f: spec_fn(A) -> Set<Seq<char>>, i: int)
    requires
        0 <= i < items.len(),
    ensures
        union_over(items.take(i + 1), f) == union_over(items.take(i), f).union(f(items[i])),
{
    let now = items.take(i + 1);
    assert forall|x: Seq<char>| union_over(now, f).contains(x) <==> union_over(
        items.take(i),
        f,
    ).union(f(items[i])).contains(x) by {
        if union_over(items.take(i), f).contains(x) {
            let j = choose|j: int|
                0 <= j < items.take(i).len() && f(#[trigger] items.take(i)[j]).contains(x);
            assert(f(now[j]).contains(x));
        }
        if f(items[i]).contains(x) {
            assert(f(now[i]).contains(x));
        }
        if union_over(now, f).contains(x) {
            let j = choose|j: int| 0 <= j < now.len() && f(#[trigger] now[j]).contains(x);
            if j < i {
                assert(f(items.take(i)[j]).contains(x));
            }
        }
    }
    assert(union_over(now, f) =~= union_over(items.take(i), f).union(f(items[i])));
}

/// Splits a leading `disconnect:` marker off an output key, returning whether it was present and
/// the remaining spec (which may still carry a `regex:` marker).
pub fn split_disconnect(key: &str) -> (split: (bool, &str))
    ensures
        split.0 == is_disconnect(key@),
        split.1@ == port_spec(key@),
        split.0 <==> "disconnect:"@.is_prefix_of(key@),
        split.0 ==> "disconnect:"@ + split.1@ == key@,
        !split.0 ==> split.1@ == key@,
{
    match after_prefix(key, "disconnect:") {
        Some(rest) => {
            assert("disconnect:"@ + rest@ =~= key@);
            (true, rest)
        },
        None => (false, key),
    }
}

/// Appends a step that only notes something.
fn push_note(steps: &mut Vec<Step>, notice: Notice)
    ensures
        step_views(final(steps)@) == step_views(old(steps)@) + seq![StepView::Note(notice@)],
{
    steps.push(Step::Note(notice));
    assert(step_views(steps@) =~= step_views(old(steps)@) + seq![StepView::Note(notice@)]);
}

/// Appends the steps for one destination of a source port.
fn plan_destination(
    ports: &Ports,
    disconnect: bool,
    source: &String,
    destination: &ConfigValue,
    cache: &mut RegexCache,
    steps: &mut Vec<Step>,
)
    ensures
        step_views(final(steps)@) == step_views(old(steps)@) + destination_steps(
            ports@,
            disconnect,
            source@,
            destination@,
        ),
        final(cache).patterns() == old(cache).patterns().union(destination_patterns(destination@)),
{
    let spec = match destination {
        ConfigValue::Text(spec) => spec,
        _ => {
            push_note(steps, Notice::NotText(source.clone()));
            assert(cache.patterns() =~= old(cache).patterns().union(set![]));
            return;
        },
    };
    let found = resolve_ports(ports, spec.as_str(), None, cache);
    assert(cache.patterns() =~= old(cache).patterns().union(destination_patterns(destination@)));
    if found.len() == 0 {
        push_note(steps, Notice::NoDestination(spec.clone()));
        return;
    }
    let ghost before = step_views(steps@);
    let ghost dests = texts(found@);
    let ghost more = dests.map_values(|dest: Seq<char>| edge_step(disconnect, source@, dest));
    let mut i: usize = 0;
    assert(before + more.take(0) =~= before);
    while i < found.len()
        invariant
            i <= found.len(),
            dests == texts(found@),
            more == dests.map_values(|dest: Seq<char>| edge_step(disconnect, source@, dest)),
            step_views(steps@) == before + more.take(i as int),
        decreases found.len() - i,
    {
        let dest = found[i].clone();
        let ghost sofar = step_views(steps@);
        let step = if disconnect {
            Step::Disconnect { source: source.clone(), dest }
        } else {
            Step::Connect { source: source.clone(), dest }
        };
        steps.push(step);
        assert(more[i as int] == edge_step(disconnect, source@, found@[i as int]@));
        assert(step_views(steps@) =~= sofar.push(step@));
        assert(more.take(i + 1) =~= more.take(i as int).push(more[i as int]));
        assert(step_views(steps@) =~= before + more.take(i + 1));
        i = i + 1;
    }
    assert(more.take(more.len() as int) =~= more);
}

/// Appends the steps for one source port.
fn plan_source(
    ports: &Ports,
    disconnect: bool,
    source: &String,
    destinations: &Vec<ConfigValue>,
    cache: &mut RegexCache,
    steps: &mut Vec<Step>,
)
    ensures
        step_views(final(steps)@) == step_views(old(steps)@) + source_steps(
            ports@,
            disconnect,
            source@,
            trees(destinations@),
        ),
        final(cache).patterns() == old(cache).patterns().union(
            destinations_patterns(trees(destinations@)),
        ),
{
    let ghost before = step_views(steps@);
    let ghost all = trees(destinations@);
    let ghost f = |d: Tree| destination_steps(ports@, disconnect, source@, d);
    let ghost g = |d: Tree| destination_patterns(d);
    let mut i: usize = 0;
    assert(cache.patterns() =~= old(cache).patterns().union(union_over(all.take(0), g)));
    assert(before + all.take(0).flat_map(f) =~= before);
    while i < destinations.len()
        invariant
            i <= destinations.len(),
            all == trees(destinations@),
            f == (|d: Tree| destination_steps(ports@, disconnect, source@, d)),
            step_views(steps@) == before + all.take(i as int).flat_map(f),
            g == (|d: Tree| destination_patterns(d)),
            cache.patterns() == old(cache).patterns().union(union_over(all.take(i as int), g)),
        decreases destinations.len() - i,
    {
        plan_destination(ports, disconnect, source, &destinations[i], cache, steps);
        proof {
            all.lemma_flat_map_take_append(f, i as int);
            assert(all[i as int] == destinations@[i as int]@);
            lemma_union_over_next(all, g, i as int);
            assert(cache.patterns() =~= old(cache).patterns().union(
                union_over(all.take(i + 1), g),
            ));
            assert(step_views(steps@) =~= before + all.take(i + 1).flat_map(f));
        }
        i = i + 1;
    }
    assert(all.take(all.len() as int) =~= all);
}

/// Appends the steps for one key of a client.
fn plan_key(
    ports: &Ports,
    client: &String,
    key: &String,
    value: &ConfigValue,
    cache: &mut RegexCache,
    steps: &mut Vec<Step>,
)
    ensures
        step_views(final(steps)@) == step_views(old(steps)@) + key_steps(
            ports@,
            client@,
            key@,
            value@,
        ),
        final(cache).patterns() == old(cache).patterns().union(
            key_patterns(ports@, client@, key@, value@),
        ),
{
    let (disconnect, spec) = split_disconnect(key.as_str());
    proof {
        lemma_array_view(*value);
    }
    let destinations = match value {
        ConfigValue::Array(destinations) => destinations,
        _ => {
            push_note(steps, Notice::NotArray(client.clone(), spec.to_string()));
            assert(cache.patterns() =~= old(cache).patterns().union(set![]));
            return;
        },
    };
    let found = resolve_ports(ports, spec, Some(client.as_str()), cache);
    let ghost of_key = old(cache).patterns().union(spec_patterns(spec@, Some(client@)));
    let ghost of_destinations = destinations_patterns(trees(destinations@));
    assert(cache.patterns() =~= of_key);
    if found.len() == 0 {
        // Normal in a declarative model: clients come and go.
        push_note(steps, Notice::NoSource(client.clone(), spec.to_string()));
        return;
    }
    let ghost before = step_views(steps@);
    let ghost all = texts(found@);
    let ghost f = |source: Seq<char>|
        source_steps(ports@, is_disconnect(key@), source, trees(destinations@));
    let mut i: usize = 0;
    assert(before + all.take(0).flat_map(f) =~= before);
    while i < found.len()
        invariant
            i <= found.len(),
            all == texts(found@),
            disconnect == is_disconnect(key@),
            f == (|source: Seq<char>|
                source_steps(ports@, is_disconnect(key@), source, trees(destinations@))),
            step_views(steps@) == before + all.take(i as int).flat_map(f),
            of_destinations == destinations_patterns(trees(destinations@)),
            cache.patterns() == (if i == 0 {
                of_key
            } else {
                of_key.union(of_destinations)
            }),
        decreases found.len() - i,
    {
        plan_source(ports, disconnect, &found[i], destinations, cache, steps);
        proof {
            all.lemma_flat_map_take_append(f, i as int);
            assert(all[i as int] == found@[i as int]@);
            assert(cache.patterns() =~= of_key.union(of_destinations));
            assert(step_views(steps@) =~= before + all.take(i + 1).flat_map(f));
        }
        i = i + 1;
    }
    assert(all.take(all.len() as int) =~= all);
    assert(cache.patterns() =~= old(cache).patterns().union(
        key_patterns(ports@, client@, key@, value@),
    ));
}

/// Appends the steps for one client.
fn plan_client(
    ports: &Ports,
    client: &String,
    value: &ConfigValue,
    cache: &mut RegexCache,
    steps: &mut Vec<Step>,
)
    ensures
        step_views(final(steps)@) == step_views(old(steps)@) + client_steps(
            ports@,
            client@,
            value@,
        ),
        final(cache).patterns() == old(cache).patterns().union(
            client_patterns(ports@, client@, value@),
        ),
        value@ is Table ==> value@->Table_0.dom().finite(),
{
    let keys = match value {
        ConfigValue::Table(keys) => keys,
        _ => {
            push_note(steps, Notice::NotTable(client.clone()));
            assert(cache.patterns() =~= old(cache).patterns().union(set![]));
            return;
        },
    };
    let entries = keys.entries();
    let ghost before = step_views(steps@);
    let ghost all = entry_ref_views(entries@);
    let ghost f = |entry: (Seq<char>, Tree)| key_steps(ports@, client@, entry.0, entry.1);
    let ghost g = |entry: (Seq<char>, Tree)| key_patterns(ports@, client@, entry.0, entry.1);
    proof {
        enumeration_is_unique(all, keys@);
        listed_is_finite(keys_of(all), keys@.dom());
    }
    let mut i: usize = 0;
    assert(before + all.take(0).flat_map(f) =~= before);
    assert(cache.patterns() =~= old(cache).patterns().union(union_over(all.take(0), g)));
    while i < entries.len()
        invariant
            i <= entries.len(),
            all == entry_ref_views(entries@),
            f == (|entry: (Seq<char>, Tree)| key_steps(ports@, client@, entry.0, entry.1)),
            g == (|entry: (Seq<char>, Tree)| key_patterns(ports@, client@, entry.0, entry.1)),
            cache.patterns() == old(cache).patterns().union(union_over(all.take(i as int), g)),
            step_views(steps@) == before + all.take(i as int).flat_map(f),
        decreases entries.len() - i,
    {
        let (key, destinations) = entries[i];
        plan_key(ports, client, key, destinations, cache, steps);
        proof {
            all.lemma_flat_map_take_append(f, i as int);
            assert(all[i as int] == (key@, destinations@));
            lemma_union_over_next(all, g, i as int);
            assert(cache.patterns() =~= old(cache).patterns().union(
                union_over(all.take(i + 1), g),
            ));
            assert(step_views(steps@) =~= before + all.take(i + 1).flat_map(f));
        }
        i = i + 1;
    }
    assert(all.take(all.len() as int) =~= all);
}

/// The steps that a connection map asks for, given the current ports.
pub fn plan_steps(ports: &Ports, config: &Table, cache: &mut RegexCache) -> (steps: Vec<Step>)
    ensures
        step_views(steps@) == plan(ports@, config@),
        final(cache).patterns() == old(cache).patterns().union(patterns(ports@, config@)),
        is_finite(config@),
{
    let mut steps: Vec<Step> = Vec::new();
    let entries = config.entries();
    let ghost all = entry_ref_views(entries@);
    let ghost f = |entry: (Seq<char>, Tree)| client_steps(ports@, entry.0, entry.1);
    let ghost g = |entry: (Seq<char>, Tree)| client_patterns(ports@, entry.0, entry.1);
    proof {
        enumeration_is_unique(all, config@);
        listed_is_finite(keys_of(all), config@.dom());
    }
    let mut i: usize = 0;
    assert(step_views(steps@) =~= all.take(0).flat_map(f));
    assert(cache.patterns() =~= old(cache).patterns().union(union_over(all.take(0), g)));
    while i < entries.len()
        invariant
            i <= entries.len(),
            all == entry_ref_views(entries@),
            f == (|entry: (Seq<char>, Tree)| client_steps(ports@, entry.0, entry.1)),
            g == (|entry: (Seq<char>, Tree)| client_patterns(ports@, entry.0, entry.1)),
            cache.patterns() == old(cache).patterns().union(union_over(all.take(i as int), g)),
            step_views(steps@) == all.take(i as int).flat_map(f),
            forall|j: int|
                0 <= j < i && (#[trigger] all[j]).1 is Table
                    ==> all[j].1->Table_0.dom().finite(),
        decreases entries.len() - i,
    {
        let (client, value) = entries[i];
        plan_client(ports, client, value, cache, &mut steps);
        proof {
            all.lemma_flat_map_take_append(f, i as int);
            assert(all[i as int] == (client@, value@));
            lemma_union_over_next(all, g, i as int);
            assert(cache.patterns() =~= old(cache).patterns().union(
                union_over(all.take(i + 1), g),
            ));
            assert(step_views(steps@) =~= all.take(i + 1).flat_map(f));
        }
        i = i + 1;
    }
    assert(all.take(all.len() as int) =~= all);
    assert forall|client: Seq<char>| #[trigger]
        config@.contains_key(client) && config@[client] is Table implies
        config@[client]->Table_0.dom().finite() by {
        let j = choose|j: int| 0 <= j < keys_of(all).len() && keys_of(all)[j] == client;
        assert(all[j].0 == client);
    }
    steps
}

} // verus!
