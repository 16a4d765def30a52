//! What holds of carrying out a pass on the graph of a server.
use vstd::prelude::*;

use crate::laws::planning::{declares, steps_are_the_declared_edges};
use crate::pass::{attempt, started, ActionView, ConnectionsView, PassView, ReplyView};
use crate::plan::{edge_step, is_finite, plan, StepView};
use crate::value::TableView;

verus! {

/// The edges of a graph, each from a source port to a destination port.
pub type Graph = Set<(Seq<char>, Seq<char>)>;

/// The ports that `source` is connected to.
pub open spec fn targets(graph: Graph, source: Seq<char>) -> Set<Seq<char>> {
    Set::new(|dest: Seq<char>| graph.contains((source, dest)))
}

/// What the pass knows of the graph is true.
pub open spec fn knows(conns: ConnectionsView, graph: Graph) -> bool {
    forall|source: Seq<char>| #[trigger]
        conns.contains_key(source) ==> conns[source] == targets(graph, source)
}

/// What a server replies to a request that it grants or not.
pub open spec fn reply_to(granted: bool) -> ReplyView {
    if granted {
        ReplyView::Succeeded
    } else {
        ReplyView::Failed
    }
}

/// The graph after a server has granted a step, or has not.
pub open spec fn effect(graph: Graph, step: StepView, granted: bool) -> Graph {
    match step {
        StepView::Connect { source, dest } => if granted {
            graph.insert((source, dest))
        } else {
            graph
        },
        StepView::Disconnect { source, dest } => if granted {
            graph.remove((source, dest))
        } else {
            graph
        },
        StepView::Note(_) => graph,
    }
}

/// The graph is not yet as the step wants it.
pub open spec fn is_open(graph: Graph, step: StepView) -> bool {
    match step {
        StepView::Connect { source, dest } => !graph.contains((source, dest)),
        StepView::Disconnect { source, dest } => graph.contains((source, dest)),
        StepView::Note(_) => false,
    }
}

/// The graph after the first `n` steps, where the server grants step `i` if `grants(i)`.
pub open spec fn after_steps(
    graph: Graph,
    steps: Seq<StepView>,
    grants: spec_fn(int) -> bool,
    n: int,
) -> Graph
    decreases n,
{
    if n <= 0 {
        graph
    } else {
        effect(after_steps(graph, steps, grants, n - 1), steps[n - 1], grants(n - 1))
    }
}

/// One of the first `n` steps changes the graph.
pub open spec fn some_step_changes(
    graph: Graph,
    steps: Seq<StepView>,
    grants: spec_fn(int) -> bool,
    n: int,
) -> bool {
    exists|i: int|
        0 <= i < n && #[trigger] grants(i) && is_open(
            after_steps(graph, steps, grants, i),
            steps[i],
        )
}

/// The source port of the step at which the pass stands.
pub open spec fn current_source(pass: PassView) -> Option<Seq<char>> {
    if pass.next < pass.steps.len() {
        match pass.steps[pass.next as int] {
            StepView::Connect { source, .. } => Some(source),
            StepView::Disconnect { source, .. } => Some(source),
            StepView::Note(_) => None,
        }
    } else {
        None
    }
}

/// Whether the pass does not know yet what it has to know for the step at which it stands.
pub open spec fn in_the_dark(pass: PassView) -> nat {
    if current_source(pass) matches Some(source) && !pass.conns.contains_key(source) {
        1
    } else {
        0
    }
}

/// How many steps the pass has before it.
pub open spec fn steps_left(pass: PassView) -> nat {
    if pass.next <= pass.steps.len() {
        (pass.steps.len() - pass.next) as nat
    } else {
        0
    }
}

/// Going on changes nothing but the step at which the pass stands. What is then asked for is what
/// that step needs: a source's connections only where they are not known, an edge to be made only
/// where it is not known to be there, and one to be removed only where it is.
pub proof fn requests_are_needed(pass: PassView)
    ensures
        pass.advanced().0 == (PassView { next: pass.advanced().0.next, ..pass }),
        pass.advanced().0.next >= pass.next,
        pass.next <= pass.steps.len() ==> pass.advanced().0.next <= pass.steps.len(),
        match pass.advanced().1 {
            ActionView::ListConnections(source) => {
                &&& current_source(pass.advanced().0) == Some(source)
                &&& !pass.conns.contains_key(source)
            },
            ActionView::Connect(source, dest) => {
                &&& pass.advanced().0.next < pass.steps.len()
                &&& pass.steps[pass.advanced().0.next as int] == (StepView::Connect { source, dest })
                &&& pass.conns.contains_key(source)
                &&& !pass.conns[source].contains(dest)
            },
            ActionView::Disconnect(source, dest) => {
                &&& pass.advanced().0.next < pass.steps.len()
                &&& pass.steps[pass.advanced().0.next as int] == (StepView::Disconnect {
                    source,
                    dest,
                })
                &&& pass.conns.contains_key(source)
                &&& pass.conns[source].contains(dest)
            },
            ActionView::Note(notice) => {
                &&& pass.next < pass.advanced().0.next <= pass.steps.len()
                &&& pass.steps[pass.advanced().0.next - 1] == StepView::Note(notice)
            },
            ActionView::Done(changed) => {
                &&& pass.advanced().0.next >= pass.steps.len()
                &&& changed == pass.changed
            },
        },
    decreases pass.steps.len() - pass.next,
{
    if pass.next < pass.steps.len() {
        match pass.steps[pass.next as int] {
            StepView::Connect { source, dest } => {
                if attempt(pass.conns, source, dest, true) is Settled {
                    requests_are_needed(pass.past());
                }
            },
            StepView::Disconnect { source, dest } => {
                if attempt(pass.conns, source, dest, false) is Settled {
                    requests_are_needed(pass.past());
                }
            },
            StepView::Note(_) => {},
        }
    }
}

/// The pass and the graph once the pass is over, where the server tells the truth about its
/// connections and grants step `i` if `grants(i)`.
pub open spec fn finished(pass: PassView, graph: Graph, grants: spec_fn(int) -> bool) -> (
    PassView,
    Graph,
)
    decreases steps_left(pass), in_the_dark(pass),
{
    let (at, action) = pass.advanced();
    proof {
        requests_are_needed(pass);
    }
    match action {
        ActionView::Done(_) => (at, graph),
        ActionView::Note(_) => finished(at, graph, grants),
        ActionView::ListConnections(source) => finished(
            at.answered(ReplyView::Connections(targets(graph, source))),
            graph,
            grants,
        ),
        ActionView::Connect(_, _) => finished(
            at.answered(reply_to(grants(at.next as int))),
            effect(graph, at.steps[at.next as int], grants(at.next as int)),
            grants,
        ),
        ActionView::Disconnect(_, _) => finished(
            at.answered(reply_to(grants(at.next as int))),
            effect(graph, at.steps[at.next as int], grants(at.next as int)),
            grants,
        ),
    }
}

proof fn lemma_skipped(
    pass: PassView,
    start: Graph,
    grants: spec_fn(int) -> bool,
)
    requires
        pass.next <= pass.steps.len(),
        knows(pass.conns, after_steps(start, pass.steps, grants, pass.next as int)),
    ensures
        after_steps(start, pass.steps, grants, pass.advanced().0.next as int) == after_steps(
            start,
            pass.steps,
            grants,
            pass.next as int,
        ),
        forall|i: int|
            pass.next <= i < pass.advanced().0.next ==> !is_open(
                #[trigger] after_steps(start, pass.steps, grants, i),
                pass.steps[i],
            ),
    decreases pass.steps.len() - pass.next,
{
    let graph = after_steps(start, pass.steps, grants, pass.next as int);
    requests_are_needed(pass);
    if pass.next < pass.steps.len() {
        let next = after_steps(start, pass.steps, grants, pass.next + 1int);
        match pass.steps[pass.next as int] {
            StepView::Connect { source, dest } => {
                if attempt(pass.conns, source, dest, true) is Settled {
                    assert(targets(graph, source).contains(dest));
                    assert(next =~= graph);
                    lemma_skipped(pass.past(), start, grants);
                }
            },
            StepView::Disconnect { source, dest } => {
                if attempt(pass.conns, source, dest, false) is Settled {
                    assert(!targets(graph, source).contains(dest));
                    assert(next =~= graph);
                    lemma_skipped(pass.past(), start, grants);
                }
            },
            StepView::Note(_) => {
                assert(next =~= graph);
            },
        }
    }
}

proof fn lemma_finished(
    pass: PassView,
    start: Graph,
    grants: spec_fn(int) -> bool,
)
    requires
        pass.next <= pass.steps.len(),
        knows(pass.conns, after_steps(start, pass.steps, grants, pass.next as int)),
        pass.changed == some_step_changes(start, pass.steps, grants, pass.next as int),
    ensures
        ({
            let end = finished(
                pass,
                after_steps(start, pass.steps, grants, pass.next as int),
                grants,
            );
            &&& end.0.steps == pass.steps
            &&& end.0.next == pass.steps.len()
            &&& end.0.changed == some_step_changes(
                start,
                pass.steps,
                grants,
                pass.steps.len() as int,
            )
            &&& end.1 == after_steps(start, pass.steps, grants, pass.steps.len() as int)
        }),
    decreases steps_left(pass), in_the_dark(pass),
{
    let steps = pass.steps;
    let graph = after_steps(start, steps, grants, pass.next as int);
    let (at, action) = pass.advanced();
    requests_are_needed(pass);
    lemma_skipped(pass, start, grants);
    assert(some_step_changes(start, steps, grants, at.next as int) == pass.changed) by {
        if pass.changed {
            let i = choose|i: int|
                0 <= i < pass.next && #[trigger] grants(i) && is_open(
                    after_steps(start, steps, grants, i),
                    steps[i],
                );
            assert(grants(i));
        }
    }
    match action {
        ActionView::Done(_) => {},
        ActionView::Note(_) => {
            lemma_finished(at, start, grants);
        },
        ActionView::ListConnections(source) => {
            let next = at.answered(ReplyView::Connections(targets(graph, source)));
            lemma_finished(next, start, grants);
        },
        ActionView::Connect(source, dest) => {
            let granted = grants(at.next as int);
            let next = at.answered(reply_to(granted));
            lemma_answered(at, start, grants, source, dest);
            lemma_finished(next, start, grants);
        },
        ActionView::Disconnect(source, dest) => {
            let granted = grants(at.next as int);
            let next = at.answered(reply_to(granted));
            lemma_answered(at, start, grants, source, dest);
            lemma_finished(next, start, grants);
        },
    }
}

proof fn lemma_answered(
    at: PassView,
    start: Graph,
    grants: spec_fn(int) -> bool,
    source: Seq<char>,
    dest: Seq<char>,
)
    requires
        at.next < at.steps.len(),
        knows(at.conns, after_steps(start, at.steps, grants, at.next as int)),
        at.changed == some_step_changes(start, at.steps, grants, at.next as int),
        at.conns.contains_key(source),
        at.steps[at.next as int] == (StepView::Connect { source, dest }) && !at.conns[source].contains(
            dest,
        ) || at.steps[at.next as int] == (StepView::Disconnect { source, dest })
            && at.conns[source].contains(dest),
    ensures
        ({
            let next = at.answered(reply_to(grants(at.next as int)));
            &&& next.steps == at.steps
            &&& next.next == at.next + 1
            &&& knows(next.conns, after_steps(start, at.steps, grants, at.next + 1int))
            &&& next.changed == some_step_changes(start, at.steps, grants, at.next + 1int)
        }),
{
    let graph = after_steps(start, at.steps, grants, at.next as int);
    let granted = grants(at.next as int);
    let next = at.answered(reply_to(granted));
    let after = after_steps(start, at.steps, grants, at.next + 1int);
    assert(targets(graph, source) == at.conns[source]);
    assert(targets(graph, source).contains(dest) == graph.contains((source, dest)));
    assert(is_open(graph, at.steps[at.next as int]));
    assert forall|other: Seq<char>| #[trigger] next.conns.contains_key(other) implies next.conns[other]
        == targets(after, other) by {
        assert(at.conns.contains_key(other));
        assert(next.conns[other] =~= targets(after, other));
    }
    if granted {
        assert(grants(at.next as int));
    }
    if at.changed {
        let i = choose|i: int|
            0 <= i < at.next && #[trigger] grants(i) && is_open(
                after_steps(start, at.steps, grants, i),
                at.steps[i],
            );
        assert(grants(i));
    }
}

/// A pass carries out its steps one after the other, as far as the server grants them, and tells
/// whether one of them changed the graph.
pub proof fn a_pass_carries_out_its_steps(
    steps: Seq<StepView>,
    graph: Graph,
    grants: spec_fn(int) -> bool,
)
    ensures
        finished(started(steps), graph, grants).1 == after_steps(
            graph,
            steps,
            grants,
            steps.len() as int,
        ),
        finished(started(steps), graph, grants).0.next == steps.len(),
        finished(started(steps), graph, grants).0.changed == some_step_changes(
            graph,
            steps,
            grants,
            steps.len() as int,
        ),
{
    lemma_finished(started(steps), graph, grants);
}

proof fn lemma_edge_stays(
    graph: Graph,
    steps: Seq<StepView>,
    grants: spec_fn(int) -> bool,
    n: int,
    source: Seq<char>,
    dest: Seq<char>,
)
    requires
        0 <= n <= steps.len(),
    ensures
        graph.contains((source, dest)) && !steps.contains(edge_step(true, source, dest))
            ==> after_steps(graph, steps, grants, n).contains((source, dest)),
        !graph.contains((source, dest)) && !steps.contains(edge_step(false, source, dest))
            ==> !after_steps(graph, steps, grants, n).contains((source, dest)),
    decreases n,
{
    if n > 0 {
        lemma_edge_stays(graph, steps, grants, n - 1, source, dest);
        assert(steps.contains(steps[n - 1]));
    }
}

/// A pass is not destructive: it removes no edge that is not marked to be removed, and makes none
/// that is not declared. Connections made by hand are left alone.
pub proof fn undeclared_edges_are_left_alone(
    ports: Seq<Seq<char>>,
    config: TableView,
    graph: Graph,
    grants: spec_fn(int) -> bool,
    source: Seq<char>,
    dest: Seq<char>,
)
    requires
        is_finite(config),
    ensures
        graph.contains((source, dest)) && !declares(ports, config, true, source, dest) ==> finished(
            started(plan(ports, config)),
            graph,
            grants,
        ).1.contains((source, dest)),
        !graph.contains((source, dest)) && !declares(ports, config, false, source, dest)
            ==> !finished(started(plan(ports, config)), graph, grants).1.contains((source, dest)),
{
    let steps = plan(ports, config);
    a_pass_carries_out_its_steps(steps, graph, grants);
    steps_are_the_declared_edges(ports, config, true, source, dest);
    steps_are_the_declared_edges(ports, config, false, source, dest);
    lemma_edge_stays(graph, steps, grants, steps.len() as int, source, dest);
}

/// What is asked of the server is declared: an edge that is to be made is declared, and one that
/// is to be removed is marked so.
pub proof fn requests_are_declared(
    ports: Seq<Seq<char>>,
    config: TableView,
    pass: PassView,
)
    requires
        is_finite(config),
        pass.steps == plan(ports, config),
    ensures
        match pass.advanced().1 {
            ActionView::Connect(source, dest) => declares(ports, config, false, source, dest),
            ActionView::Disconnect(source, dest) => declares(ports, config, true, source, dest),
            _ => true,
        },
{
    requests_are_needed(pass);
    let at = pass.advanced().0;
    match pass.advanced().1 {
        ActionView::Connect(source, dest) => {
            assert(pass.steps.contains(pass.steps[at.next as int]));
            steps_are_the_declared_edges(ports, config, false, source, dest);
        },
        ActionView::Disconnect(source, dest) => {
            assert(pass.steps.contains(pass.steps[at.next as int]));
            steps_are_the_declared_edges(ports, config, true, source, dest);
        },
        _ => {},
    }
}

proof fn lemma_edge_is_established(
    graph: Graph,
    steps: Seq<StepView>,
    grants: spec_fn(int) -> bool,
    n: int,
    disconnect: bool,
    source: Seq<char>,
    dest: Seq<char>,
)
    requires
        0 <= n <= steps.len(),
        !steps.contains(edge_step(!disconnect, source, dest)),
        forall|i: int|
            0 <= i < steps.len() && #[trigger] steps[i] == edge_step(disconnect, source, dest)
                ==> grants(i),
        exists|i: int| 0 <= i < n && #[trigger] steps[i] == edge_step(disconnect, source, dest),
    ensures
        after_steps(graph, steps, grants, n).contains((source, dest)) == !disconnect,
    decreases n,
{
    let edge = edge_step(disconnect, source, dest);
    if steps[n - 1] == edge {
        assert(grants(n - 1));
    } else {
        assert(steps.contains(steps[n - 1]));
        assert(exists|i: int| 0 <= i < n - 1 && #[trigger] steps[i] == edge) by {
            let i = choose|i: int| 0 <= i < n && #[trigger] steps[i] == edge;
            assert(steps[i] == edge);
        }
        lemma_edge_is_established(graph, steps, grants, n - 1, disconnect, source, dest);
    }
}

/// After a pass an edge is as the map declares it, where the map does not declare it both ways
/// and the server grants what is asked for it.
pub proof fn declared_edges_are_established(
    ports: Seq<Seq<char>>,
    config: TableView,
    graph: Graph,
    grants: spec_fn(int) -> bool,
    disconnect: bool,
    source: Seq<char>,
    dest: Seq<char>,
)
    requires
        is_finite(config),
        declares(ports, config, disconnect, source, dest),
        !declares(ports, config, !disconnect, source, dest),
        forall|i: int|
            0 <= i < plan(ports, config).len() && #[trigger] plan(ports, config)[i] == edge_step(
                disconnect,
                source,
                dest,
            ) ==> grants(i),
    ensures
        finished(started(plan(ports, config)), graph, grants).1.contains((source, dest))
            == !disconnect,
{
    let steps = plan(ports, config);
    a_pass_carries_out_its_steps(steps, graph, grants);
    steps_are_the_declared_edges(ports, config, disconnect, source, dest);
    steps_are_the_declared_edges(ports, config, !disconnect, source, dest);
    let i = choose|i: int| 0 <= i < steps.len() && steps[i] == edge_step(disconnect, source, dest);
    assert(steps[i] == edge_step(disconnect, source, dest));
    lemma_edge_is_established(
        graph,
        steps,
        grants,
        steps.len() as int,
        disconnect,
        source,
        dest,
    );
}

/// Every edge that the map declares between current ports is there, and none that it marks to be
/// removed.
pub open spec fn matches_map(graph: Graph, ports: Seq<Seq<char>>, config: TableView) -> bool {
    forall|disconnect: bool, source: Seq<char>, dest: Seq<char>| #[trigger]
        declares(ports, config, disconnect, source, dest) ==> graph.contains((source, dest))
            == !disconnect
}

proof fn lemma_settled_steps(
    graph: Graph,
    steps: Seq<StepView>,
    grants: spec_fn(int) -> bool,
    n: int,
)
    requires
        0 <= n <= steps.len(),
        forall|i: int| 0 <= i < n ==> !is_open(graph, #[trigger] steps[i]),
    ensures
        after_steps(graph, steps, grants, n) == graph,
    decreases n,
{
    if n > 0 {
        lemma_settled_steps(graph, steps, grants, n - 1);
        assert(!is_open(graph, steps[n - 1]));
        assert(after_steps(graph, steps, grants, n) =~= graph);
    }
}

/// On a graph that matches the map a pass changes nothing, and says so.
pub proof fn a_matching_graph_is_left_as_it_is(
    ports: Seq<Seq<char>>,
    config: TableView,
    graph: Graph,
    grants: spec_fn(int) -> bool,
)
    requires
        is_finite(config),
        matches_map(graph, ports, config),
    ensures
        finished(started(plan(ports, config)), graph, grants).1 == graph,
        !finished(started(plan(ports, config)), graph, grants).0.changed,
{
    let steps = plan(ports, config);
    a_pass_carries_out_its_steps(steps, graph, grants);
    lemma_matching_steps(ports, config, graph);
    assert forall|i: int| 0 <= i < steps.len() implies !is_open(
        #[trigger] after_steps(graph, steps, grants, i),
        steps[i],
    ) by {
        lemma_settled_steps(graph, steps, grants, i);
    }
    lemma_settled_steps(graph, steps, grants, steps.len() as int);
}

/// Everything that the pass asks for until it is over, where the server tells the truth about its
/// connections and grants step `i` if `grants(i)`.
pub open spec fn asked(pass: PassView, graph: Graph, grants: spec_fn(int) -> bool) -> Seq<ActionView>
    decreases steps_left(pass), in_the_dark(pass),
{
    let (at, action) = pass.advanced();
    proof {
        requests_are_needed(pass);
    }
    match action {
        ActionView::Done(_) => seq![action],
        ActionView::Note(_) => seq![action] + asked(at, graph, grants),
        ActionView::ListConnections(source) => seq![action] + asked(
            at.answered(ReplyView::Connections(targets(graph, source))),
            graph,
            grants,
        ),
        ActionView::Connect(_, _) => seq![action] + asked(
            at.answered(reply_to(grants(at.next as int))),
            effect(graph, at.steps[at.next as int], grants(at.next as int)),
            grants,
        ),
        ActionView::Disconnect(_, _) => seq![action] + asked(
            at.answered(reply_to(grants(at.next as int))),
            effect(graph, at.steps[at.next as int], grants(at.next as int)),
            grants,
        ),
    }
}

/// No edge is to be made or removed among what is asked for.
pub open spec fn changes_no_edge(actions: Seq<ActionView>) -> bool {
    forall|i: int|
        0 <= i < actions.len() ==> !((#[trigger] actions[i]) is Connect) && !(actions[i]
            is Disconnect)
}

proof fn lemma_nothing_is_asked(pass: PassView, graph: Graph, grants: spec_fn(int) -> bool)
    requires
        pass.next <= pass.steps.len(),
        knows(pass.conns, graph),
        forall|i: int| 0 <= i < pass.steps.len() ==> !is_open(graph, #[trigger] pass.steps[i]),
    ensures
        changes_no_edge(asked(pass, graph, grants)),
    decreases steps_left(pass), in_the_dark(pass),
{
    let (at, action) = pass.advanced();
    requests_are_needed(pass);
    match action {
        ActionView::Done(_) => {},
        ActionView::Note(_) => {
            lemma_nothing_is_asked(at, graph, grants);
        },
        ActionView::ListConnections(source) => {
            let next = at.answered(ReplyView::Connections(targets(graph, source)));
            lemma_nothing_is_asked(next, graph, grants);
        },
        ActionView::Connect(source, dest) => {
            assert(!is_open(graph, pass.steps[at.next as int]));
            assert(targets(graph, source).contains(dest));
        },
        ActionView::Disconnect(source, dest) => {
            assert(!is_open(graph, pass.steps[at.next as int]));
            assert(!targets(graph, source).contains(dest));
        },
    }
}

proof fn lemma_matching_steps(ports: Seq<Seq<char>>, config: TableView, graph: Graph)
    requires
        is_finite(config),
        matches_map(graph, ports, config),
    ensures
        forall|i: int|
            0 <= i < plan(ports, config).len() ==> !is_open(graph, #[trigger] plan(ports, config)[i]),
{
    let steps = plan(ports, config);
    assert forall|i: int| 0 <= i < steps.len() implies !is_open(graph, #[trigger] steps[i]) by {
        assert(steps.contains(steps[i]));
        match steps[i] {
            StepView::Connect { source, dest } => {
                steps_are_the_declared_edges(ports, config, false, source, dest);
                assert(declares(ports, config, false, source, dest));
            },
            StepView::Disconnect { source, dest } => {
                steps_are_the_declared_edges(ports, config, true, source, dest);
                assert(declares(ports, config, true, source, dest));
            },
            StepView::Note(_) => {},
        }
    }
}

/// On a graph that matches the map nothing is asked to be connected or disconnected, from the
/// beginning of a pass to its end.
pub proof fn a_matching_graph_is_asked_for_no_change(
    ports: Seq<Seq<char>>,
    config: TableView,
    graph: Graph,
    grants: spec_fn(int) -> bool,
)
    requires
        is_finite(config),
        matches_map(graph, ports, config),
    ensures
        changes_no_edge(asked(started(plan(ports, config)), graph, grants)),
{
    lemma_matching_steps(ports, config, graph);
    lemma_nothing_is_asked(started(plan(ports, config)), graph, grants);
}

/// Where the server grants everything, a pass that changes nothing shows that the graph matches
/// the map.
pub proof fn a_pass_without_changes_shows_a_match(
    ports: Seq<Seq<char>>,
    config: TableView,
    graph: Graph,
    grants: spec_fn(int) -> bool,
)
    requires
        is_finite(config),
        forall|i: int| #[trigger] grants(i),
        !finished(started(plan(ports, config)), graph, grants).0.changed,
    ensures
        matches_map(graph, ports, config),
        finished(started(plan(ports, config)), graph, grants).1 == graph,
{
    let steps = plan(ports, config);
    a_pass_carries_out_its_steps(steps, graph, grants);
    assert forall|i: int| 0 <= i < steps.len() implies !is_open(graph, #[trigger] steps[i]) by {
        lemma_nothing_is_open(graph, steps, grants, i);
        lemma_settled_steps(graph, steps, grants, i);
        assert(grants(i));
    }
    lemma_settled_steps(graph, steps, grants, steps.len() as int);
    assert forall|disconnect: bool, source: Seq<char>, dest: Seq<char>| #[trigger]
        declares(ports, config, disconnect, source, dest) implies graph.contains((source, dest))
        == !disconnect by {
        steps_are_the_declared_edges(ports, config, disconnect, source, dest);
        let edge = edge_step(disconnect, source, dest);
        let i = choose|i: int| 0 <= i < steps.len() && steps[i] == edge;
        assert(!is_open(graph, steps[i]));
    }
}

proof fn lemma_nothing_is_open(
    graph: Graph,
    steps: Seq<StepView>,
    grants: spec_fn(int) -> bool,
    n: int,
)
    requires
        0 <= n <= steps.len(),
        forall|i: int| #[trigger] grants(i),
        !some_step_changes(graph, steps, grants, steps.len() as int),
    ensures
        forall|i: int| 0 <= i < n ==> !is_open(graph, #[trigger] steps[i]),
    decreases n,
{
    if n > 0 {
        lemma_nothing_is_open(graph, steps, grants, n - 1);
        lemma_settled_steps(graph, steps, grants, n - 1);
        assert(grants(n - 1));
    }
}

/// Passes come to rest: where the server grants everything and no edge is declared both ways, the
/// graph matches the map after one pass, and the next pass asks for no change and makes none.
pub proof fn one_pass_settles_the_graph(
    ports: Seq<Seq<char>>,
    config: TableView,
    graph: Graph,
    grants: spec_fn(int) -> bool,
    later: spec_fn(int) -> bool,
)
    requires
        is_finite(config),
        forall|i: int| #[trigger] grants(i),
        forall|source: Seq<char>, dest: Seq<char>|
            !(#[trigger] declares(ports, config, true, source, dest) && declares(
                ports,
                config,
                false,
                source,
                dest,
            )),
    ensures
        ({
            let settled = finished(started(plan(ports, config)), graph, grants).1;
            let again = finished(started(plan(ports, config)), settled, later);
            &&& matches_map(settled, ports, config)
            &&& again.1 == settled
            &&& !again.0.changed
            &&& changes_no_edge(asked(started(plan(ports, config)), settled, later))
        }),
{
    let settled = finished(started(plan(ports, config)), graph, grants).1;
    assert forall|disconnect: bool, source: Seq<char>, dest: Seq<char>| #[trigger]
        declares(ports, config, disconnect, source, dest) implies settled.contains((source, dest))
        == !disconnect by {
        assert(!(declares(ports, config, true, source, dest) && declares(
            ports,
            config,
            false,
            source,
            dest,
        )));
        declared_edges_are_established(ports, config, graph, grants, disconnect, source, dest);
    }
    a_matching_graph_is_left_as_it_is(ports, config, settled, later);
    a_matching_graph_is_asked_for_no_change(ports, config, settled, later);
}

/// The connections of a source are asked for once in a pass: what is known stays known.
pub proof fn what_is_known_stays_known(pass: PassView, reply: ReplyView, source: Seq<char>)
    requires
        pass.conns.contains_key(source),
    ensures
        pass.advanced().0.conns.contains_key(source),
        pass.answered(reply).conns.contains_key(source),
        pass.advanced().1 != ActionView::ListConnections(source),
{
    requests_are_needed(pass);
}

/// A pass goes over its steps one by one from the first, and knows nothing when it starts.
pub proof fn a_pass_starts_with_nothing_done(steps: Seq<StepView>)
    ensures
        started(steps).steps == steps,
        started(steps).next == 0,
        started(steps).conns == ConnectionsView::empty(),
        !started(steps).changed,
{
}

/// Nothing is passed over but edges that are known to be as they shall be: every notice is given,
/// every source that is not known is asked about, and every edge that is not as it shall be is
/// asked for.
pub proof fn only_settled_edges_are_passed_over(pass: PassView, i: int)
    requires
        pass.next <= i < pass.advanced().0.next,
        pass.advanced().1 is Note ==> i < pass.advanced().0.next - 1,
    ensures
        i < pass.steps.len(),
        match pass.steps[i] {
            StepView::Connect { source, dest } => pass.conns.contains_key(source)
                && pass.conns[source].contains(dest),
            StepView::Disconnect { source, dest } => pass.conns.contains_key(source)
                && !pass.conns[source].contains(dest),
            StepView::Note(_) => false,
        },
    decreases pass.steps.len() - pass.next,
{
    if pass.next < pass.steps.len() && i > pass.next {
        only_settled_edges_are_passed_over(pass.past(), i);
    }
}

/// What a pass does next at one of its steps: it gives a notice, asks for the connections of a
/// source that it does not know, and asks for an edge that is not as it shall be; and at the end
/// it says whether it has changed the graph.
pub proof fn what_a_pass_asks_next(pass: PassView)
    ensures
        pass.next >= pass.steps.len() ==> pass.advanced() == (pass, ActionView::Done(pass.changed)),
        pass.next < pass.steps.len() ==> match pass.steps[pass.next as int] {
            StepView::Note(notice) => pass.advanced() == (
                PassView { next: pass.next + 1, ..pass },
                ActionView::Note(notice),
            ),
            StepView::Connect { source, dest } => if !pass.conns.contains_key(source) {
                pass.advanced() == (pass, ActionView::ListConnections(source))
            } else if !pass.conns[source].contains(dest) {
                pass.advanced() == (pass, ActionView::Connect(source, dest))
            } else {
                pass.advanced() == (PassView { next: pass.next + 1, ..pass }).advanced()
            },
            StepView::Disconnect { source, dest } => if !pass.conns.contains_key(source) {
                pass.advanced() == (pass, ActionView::ListConnections(source))
            } else if pass.conns[source].contains(dest) {
                pass.advanced() == (pass, ActionView::Disconnect(source, dest))
            } else {
                pass.advanced() == (PassView { next: pass.next + 1, ..pass }).advanced()
            },
        },
{
}

/// What a pass makes of a reply. One about a source that it does not know tells the connections of
/// that source, of which there are none where the server could not tell. One about an edge that is
/// not as it shall be ends the step: with success the edge is as it shall be and the graph has been
/// changed, and without nothing has. Any other reply changes nothing.
pub proof fn what_a_pass_makes_of_a_reply(pass: PassView, reply: ReplyView)
    ensures
        pass.next >= pass.steps.len() ==> pass.answered(reply) == pass,
        pass.next < pass.steps.len() ==> {
            let told = match reply {
                ReplyView::Connections(dests) => dests,
                _ => Set::<Seq<char>>::empty(),
            };
            match pass.steps[pass.next as int] {
                StepView::Note(_) => pass.answered(reply) == pass,
                StepView::Connect { source, dest } => if !pass.conns.contains_key(source) {
                    pass.answered(reply) == (PassView {
                        conns: pass.conns.insert(source, told),
                        ..pass
                    })
                } else if pass.conns[source].contains(dest) {
                    pass.answered(reply) == pass
                } else if reply is Succeeded {
                    pass.answered(reply) == (PassView {
                        steps: pass.steps,
                        next: pass.next + 1,
                        conns: pass.conns.insert(source, pass.conns[source].insert(dest)),
                        changed: true,
                    })
                } else {
                    pass.answered(reply) == (PassView { next: pass.next + 1, ..pass })
                },
                StepView::Disconnect { source, dest } => if !pass.conns.contains_key(source) {
                    pass.answered(reply) == (PassView {
                        conns: pass.conns.insert(source, told),
                        ..pass
                    })
                } else if !pass.conns[source].contains(dest) {
                    pass.answered(reply) == pass
                } else if reply is Succeeded {
                    pass.answered(reply) == (PassView {
                        steps: pass.steps,
                        next: pass.next + 1,
                        conns: pass.conns.insert(source, pass.conns[source].remove(dest)),
                        changed: true,
                    })
                } else {
                    pass.answered(reply) == (PassView { next: pass.next + 1, ..pass })
                },
            }
        },
{
}

} // verus!
