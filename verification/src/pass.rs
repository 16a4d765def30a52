//! Carrying out one pass: from the steps of a plan to requests to the server.
//!
//! No request is sent here. A [`Pass`] says what to ask the server for next, and is told how that
//! went.
use vstd::hash_map::StringHashMap;
use vstd::hash_set::StringHashSet;
use vstd::prelude::*;

use crate::plan::{
    is_finite, patterns, plan, plan_steps, step_views, Notice, NoticeView, Step, StepView,
};
use crate::ports::{Ports, RegexCache};
use crate::text::texts;
use crate::value::Table;

verus! {

/// The destinations that each source port is connected to, for the sources looked at so far.
pub type ConnectionsView = Map<Seq<char>, Set<Seq<char>>>;

/// The known connections, by source port.
struct Connections {
    slots: StringHashMap<usize>,
    dests: Vec<StringHashSet>,
}

impl View for Connections {
    type V = ConnectionsView;

    closed spec fn view(&self) -> ConnectionsView {
        Map::new(
            |source: Seq<char>| self.slots@.contains_key(source),
            |source: Seq<char>| self.dests@[self.slots@[source] as int]@,
        )
    }
}

impl Connections {
    /// Every source has a slot of its own.
    closed spec fn wf(self) -> bool {
        &&& forall|source: Seq<char>| #[trigger]
            self.slots@.contains_key(source) ==> self.slots@[source] < self.dests@.len()
        &&& forall|a: Seq<char>, b: Seq<char>|
            #![trigger self.slots@[a], self.slots@[b]]
            self.slots@.contains_key(a) && self.slots@.contains_key(b) && a != b ==> self.slots@[a]
                != self.slots@[b]
    }

    fn new() -> (conns: Connections)
        ensures
            conns.wf(),
            conns@ == ConnectionsView::empty(),
    {
        let conns = Connections { slots: StringHashMap::new(), dests: Vec::new() };
        assert(conns@ =~= ConnectionsView::empty());
        conns
    }

    /// The known destinations of `source`, if it has been looked at.
    fn of(&self, source: &str) -> (found: Option<&StringHashSet>)
        requires
            self.wf(),
        ensures
            match found {
                Some(dests) => self@.contains_key(source@) && dests@ == self@[source@],
                None => !self@.contains_key(source@),
            },
    {
        match self.slots.get(source) {
            Some(slot) => Some(&self.dests[*slot]),
            None => None,
        }
    }

    /// Notes that `source` is connected to `dests` and nothing else.
    fn learn(&mut self, source: &String, dests: StringHashSet)
        requires
            old(self).wf(),
        ensures
            final(self).wf(),
            final(self)@ == old(self)@.insert(source@, dests@),
    {
        let slot: usize = self.dests.len();
        self.dests.push(dests);
        self.slots.insert(source.clone(), slot);
        assert(self@ =~= old(self)@.insert(source@, dests@));
    }

    /// Notes a new connection of `source`.
    fn connected(&mut self, source: &str, dest: String)
        requires
            old(self).wf(),
            old(self)@.contains_key(source@),
        ensures
            final(self).wf(),
            final(self)@ == old(self)@.insert(source@, old(self)@[source@].insert(dest@)),
    {
        let slot: usize = match self.slots.get(source) {
            Some(slot) => *slot,
            None => {
                return;
            },
        };
        self.dests[slot].insert(dest);
        assert(self@ =~= old(self)@.insert(source@, old(self)@[source@].insert(dest@)));
    }

    /// Notes that a connection of `source` is gone.
    fn disconnected(&mut self, source: &str, dest: &str)
        requires
            old(self).wf(),
            old(self)@.contains_key(source@),
        ensures
            final(self).wf(),
            final(self)@ == old(self)@.insert(source@, old(self)@[source@].remove(dest@)),
    {
        let slot: usize = match self.slots.get(source) {
            Some(slot) => *slot,
            None => {
                return;
            },
        };
        self.dests[slot].remove(dest);
        assert(self@ =~= old(self)@.insert(source@, old(self)@[source@].remove(dest@)));
    }
}

/// What has to be asked of the server next.
#[derive(Debug, PartialEq, Eq)]
pub enum Action {
    /// Which ports is this source port connected to?
    ListConnections(String),
    /// Connect the source port to the destination port.
    Connect(String, String),
    /// Disconnect the source port from the destination port.
    Disconnect(String, String),
    /// Nothing is asked; a part of the map asks for nothing.
    Note(Notice),
    /// The pass is over; whether it changed the graph.
    Done(bool),
}

/// What an [`Action`] says.
pub enum ActionView {
    ListConnections(Seq<char>),
    Connect(Seq<char>, Seq<char>),
    Disconnect(Seq<char>, Seq<char>),
    Note(NoticeView),
    Done(bool),
}

/// How an [`Action`] went.
pub enum Reply {
    /// The source port is connected to these ports.
    Connections(Vec<String>),
    /// The server did what was asked.
    Succeeded,
    /// The server did not do what was asked, or does not know the port.
    Failed,
}

/// What a [`Reply`] says.
pub enum ReplyView {
    Connections(Set<Seq<char>>),
    Succeeded,
    Failed,
}

/// How an edge stands to what is known of the graph.
pub enum Attempt {
    /// The connections of the source port are not known yet.
    Unknown,
    /// The edge is as it shall be.
    Settled,
    /// The edge has to be changed.
    Needed,
}

/// A pass under way: its steps, how many of them are behind it, the connections that it knows
/// of, and whether it has changed the graph.
pub struct PassView {
    pub steps: Seq<StepView>,
    pub next: nat,
    pub conns: ConnectionsView,
    pub changed: bool,
}

impl View for Action {
    type V = ActionView;

    open spec fn view(&self) -> ActionView {
        match self {
            Action::ListConnections(source) => ActionView::ListConnections(source@),
            Action::Connect(source, dest) => ActionView::Connect(source@, dest@),
            Action::Disconnect(source, dest) => ActionView::Disconnect(source@, dest@),
            Action::Note(notice) => ActionView::Note(notice@),
            Action::Done(changed) => ActionView::Done(*changed),
        }
    }
}

impl View for Reply {
    type V = ReplyView;

    open spec fn view(&self) -> ReplyView {
        match self {
            Reply::Connections(dests) => ReplyView::Connections(texts(dests@).to_set()),
            Reply::Succeeded => ReplyView::Succeeded,
            Reply::Failed => ReplyView::Failed,
        }
    }
}

/// How an edge stands, where it shall be there or not (`wanted`).
pub open spec fn attempt(
    conns: ConnectionsView,
    source: Seq<char>,
    dest: Seq<char>,
    wanted: bool,
) -> Attempt {
    if !conns.contains_key(source) {
        Attempt::Unknown
    } else if conns[source].contains(dest) == wanted {
        Attempt::Settled
    } else {
        Attempt::Needed
    }
}

impl PassView {
    /// The pass with one more step behind it.
    pub open spec fn past(self) -> PassView {
        PassView { next: self.next + 1, ..self }
    }

    /// The pass at the first step from here on that needs something of the server, or at its
    /// end, and what it needs. A notice is passed over when it is given.
    pub open spec fn advanced(self) -> (PassView, ActionView)
        decreases self.steps.len() - self.next,
    {
        if self.next < self.steps.len() {
            match self.steps[self.next as int] {
                StepView::Connect { source, dest } => match attempt(
                    self.conns,
                    source,
                    dest,
                    true,
                ) {
                    Attempt::Unknown => (self, ActionView::ListConnections(source)),
                    Attempt::Settled => self.past().advanced(),
                    Attempt::Needed => (self, ActionView::Connect(source, dest)),
                },
                StepView::Disconnect { source, dest } => match attempt(
                    self.conns,
                    source,
                    dest,
                    false,
                ) {
                    Attempt::Unknown => (self, ActionView::ListConnections(source)),
                    Attempt::Settled => self.past().advanced(),
                    Attempt::Needed => (self, ActionView::Disconnect(source, dest)),
                },
                StepView::Note(notice) => (self.past(), ActionView::Note(notice)),
            }
        } else {
            (self, ActionView::Done(self.changed))
        }
    }

    /// The pass after the server has replied about the step at which it stands.
    ///
    /// Where the connections of the source were asked for, a failure counts as none. Where the
    /// edge was to be changed, it has been with success, and is left as it is without.
    pub open spec fn answered(self, reply: ReplyView) -> PassView {
        if self.next < self.steps.len() {
            match self.steps[self.next as int] {
                StepView::Connect { source, dest } => match attempt(
                    self.conns,
                    source,
                    dest,
                    true,
                ) {
                    Attempt::Unknown => self.learned(source, reply),
                    Attempt::Settled => self,
                    Attempt::Needed => if reply is Succeeded {
                        PassView {
                            next: self.next + 1,
                            conns: self.conns.insert(source, self.conns[source].insert(dest)),
                            changed: true,
                            ..self
                        }
                    } else {
                        self.past()
                    },
                },
                StepView::Disconnect { source, dest } => match attempt(
                    self.conns,
                    source,
                    dest,
                    false,
                ) {
                    Attempt::Unknown => self.learned(source, reply),
                    Attempt::Settled => self,
                    Attempt::Needed => if reply is Succeeded {
                        PassView {
                            next: self.next + 1,
                            conns: self.conns.insert(source, self.conns[source].remove(dest)),
                            changed: true,
                            ..self
                        }
                    } else {
                        self.past()
                    },
                },
                StepView::Note(_) => self,
            }
        } else {
            self
        }
    }

    /// The pass once the connections of `source` are known.
    pub open spec fn learned(self, source: Seq<char>, reply: ReplyView) -> PassView {
        let dests = match reply {
            ReplyView::Connections(dests) => dests,
            _ => Set::empty(),
        };
        PassView { conns: self.conns.insert(source, dests), ..self }
    }
}

/// A pass that has not begun.
pub open spec fn started(steps: Seq<StepView>) -> PassView {
    PassView { steps, next: 0, conns: Map::empty(), changed: false }
}

/// One pass over the declared edges.
pub struct Pass {
    steps: Vec<Step>,
    next: usize,
    conns: Connections,
    changed: bool,
}

impl View for Pass {
    type V = PassView;

    closed spec fn view(&self) -> PassView {
        PassView {
            steps: step_views(self.steps@),
            next: self.next as nat,
            conns: self.conns@,
            changed: self.changed,
        }
    }
}

/// The strings of a list as a set.
fn text_set(list: &Vec<String>) -> (set: StringHashSet)
    ensures
        set@ == texts(list@).to_set(),
{
    let ghost all = texts(list@);
    let mut set = StringHashSet::new();
    let mut i: usize = 0;
    assert(all.take(0).to_set() =~= Set::empty());
    while i < list.len()
        invariant
            i <= list.len(),
            all == texts(list@),
            set@ == all.take(i as int).to_set(),
        decreases list.len() - i,
    {
        proof {
            assert(all.take(i + 1) =~= all.take(i as int).push(list@[i as int]@));
            all.take(i as int).lemma_push_to_set_commute(list@[i as int]@);
        }
        set.insert(list[i].clone());
        i = i + 1;
    }
    assert(all.take(all.len() as int) =~= all);
    set
}

impl Pass {
    /// The pass stands at one of its steps or at its end.
    pub closed spec fn wf(self) -> bool {
        &&& self.conns.wf()
        &&& self.next <= self.steps@.len()
    }

    /// A pass over these steps.
    pub fn new(steps: Vec<Step>) -> (pass: Pass)
        ensures
            pass.wf(),
            pass@ == started(step_views(steps@)),
    {
        Pass { steps, next: 0, conns: Connections::new(), changed: false }
    }

    /// The known connections of `source`, for the duration of the pass.
    fn source_conns(&self, source: &str) -> (found: Option<&StringHashSet>)
        requires
            self.wf(),
        ensures
            match found {
                Some(dests) => self@.conns.contains_key(source@) && dests@ == self@.conns[source@],
                None => !self@.conns.contains_key(source@),
            },
    {
        self.conns.of(source)
    }

    /// How the edge stands that shall be there.
    fn try_connect(&self, source: &str, dest: &str) -> (found: Attempt)
        requires
            self.wf(),
        ensures
            found == attempt(self@.conns, source@, dest@, true),
    {
        match self.source_conns(source) {
            None => Attempt::Unknown,
            Some(dests) => if dests.contains(dest) {
                Attempt::Settled
            } else {
                Attempt::Needed
            },
        }
    }

    /// How the edge stands that shall not be there.
    fn try_disconnect(&self, source: &str, dest: &str) -> (found: Attempt)
        requires
            self.wf(),
        ensures
            found == attempt(self@.conns, source@, dest@, false),
    {
        match self.source_conns(source) {
            None => Attempt::Unknown,
            Some(dests) => if dests.contains(dest) {
                Attempt::Needed
            } else {
                Attempt::Settled
            },
        }
    }

    /// Goes on to the first step that needs something of the server, and says what.
    pub fn advance(&mut self) -> (action: Action)
        requires
            old(self).wf(),
        ensures
            final(self).wf(),
            (final(self)@, action@) == old(self)@.advanced(),
    {
        while self.next < self.steps.len()
            invariant
                self.wf(),
                self@.advanced() == old(self)@.advanced(),
            decreases self.steps.len() - self.next,
        {
            let ghost at = self@;
            assert(at.steps[at.next as int] == self.steps@[at.next as int]@);
            match &self.steps[self.next] {
                Step::Connect { source, dest } => {
                    match self.try_connect(source.as_str(), dest.as_str()) {
                        Attempt::Unknown => {
                            return Action::ListConnections(source.clone());
                        },
                        Attempt::Needed => {
                            return Action::Connect(source.clone(), dest.clone());
                        },
                        Attempt::Settled => {},
                    }
                },
                Step::Disconnect { source, dest } => {
                    match self.try_disconnect(source.as_str(), dest.as_str()) {
                        Attempt::Unknown => {
                            return Action::ListConnections(source.clone());
                        },
                        Attempt::Needed => {
                            return Action::Disconnect(source.clone(), dest.clone());
                        },
                        Attempt::Settled => {},
                    }
                },
                Step::Note(notice) => {
                    let notice = notice.copy();
                    self.next = self.next + 1;
                    assert(self@ == at.past());
                    return Action::Note(notice);
                },
            }
            self.next = self.next + 1;
            assert(self@ == at.past());
        }
        Action::Done(self.changed)
    }

    /// Takes in the connections of `source`.
    fn learn(&mut self, source: &String, reply: Reply)
        requires
            old(self).wf(),
        ensures
            final(self).wf(),
            final(self)@ == old(self)@.learned(source@, reply@),
    {
        let dests = match reply {
            Reply::Connections(list) => text_set(&list),
            _ => StringHashSet::new(),
        };
        self.conns.learn(source, dests);
    }

    /// Takes in how the last action went.
    pub fn answer(&mut self, reply: Reply)
        requires
            old(self).wf(),
        ensures
            final(self).wf(),
            final(self)@ == old(self)@.answered(reply@),
    {
        if self.next >= self.steps.len() {
            return;
        }
        let ghost at = self@;
        assert(at.steps[at.next as int] == self.steps@[at.next as int]@);
        match &self.steps[self.next] {
            Step::Connect { source, dest } => {
                let source = source.clone();
                let dest = dest.clone();
                match self.try_connect(source.as_str(), dest.as_str()) {
                    Attempt::Unknown => {
                        self.learn(&source, reply);
                    },
                    Attempt::Settled => {},
                    Attempt::Needed => {
                        if let Reply::Succeeded = reply {
                            self.conns.connected(source.as_str(), dest);
                            self.changed = true;
                        }
                        self.next = self.next + 1;
                    },
                }
            },
            Step::Disconnect { source, dest } => {
                let source = source.clone();
                let dest = dest.clone();
                match self.try_disconnect(source.as_str(), dest.as_str()) {
                    Attempt::Unknown => {
                        self.learn(&source, reply);
                    },
                    Attempt::Settled => {},
                    Attempt::Needed => {
                        if let Reply::Succeeded = reply {
                            self.conns.disconnected(source.as_str(), dest.as_str());
                            self.changed = true;
                        }
                        self.next = self.next + 1;
                    },
                }
            },
            Step::Note(_) => {},
        }
    }
}

/// Resolves the declared edges against the current ports, ready to be connected or disconnected
/// as needed.
pub fn apply(ports: &Ports, config: &Table, cache: &mut RegexCache) -> (pass: Pass)
    ensures
        pass.wf(),
        pass@ == started(plan(ports@, config@)),
        final(cache).patterns() == old(cache).patterns().union(patterns(ports@, config@)),
        is_finite(config@),
{
    Pass::new(plan_steps(ports, config, cache))
}

} // verus!
