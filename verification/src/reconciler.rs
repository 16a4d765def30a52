//! The state that persists across passes: the loaded configuration and the compiled regular
//! expressions.
use vstd::prelude::*;

use crate::config::Loaded;
use crate::pass::{apply, started, Pass};
use crate::plan::{is_finite, patterns, plan};
use crate::ports::{lists_refused, refusal_views, regex_language, Ports, Refusal, RegexCache};
use crate::text::texts;
use crate::value::{Table, TableView};

verus! {

/// When a file was last modified, in nanoseconds from the start of 1970; nothing where that
/// cannot be told.
pub type Stamp = Option<i128>;

/// A configuration together with the stamp of every file that it was built from.
pub struct CachedConfig {
    table: Table,
    sources: Vec<(String, Stamp)>,
}

/// What a [`CachedConfig`] holds.
pub struct CachedView {
    pub table: TableView,
    pub sources: Seq<(Seq<char>, Stamp)>,
}

/// What a [`Reconciler`] holds: the path of the configuration, the configuration itself once
/// one could be loaded, and the regular expressions that have been looked up.
pub struct ReconcilerView {
    pub config_path: Seq<char>,
    pub config: Option<CachedView>,
    pub patterns: Set<Seq<char>>,
}

/// What has been found out on the way to an up-to-date configuration.
pub enum LoadEvent {
    /// The stamps that the sources have now, in the order in which they are listed.
    Stamps(Vec<Stamp>),
    /// The configuration was loaded, and these are the stamps of its sources after that.
    Loaded(Loaded, Vec<Stamp>),
    /// The configuration could not be loaded.
    Failed,
}

/// What is left to do on the way to an up-to-date configuration.
pub enum LoadStep {
    /// The configuration at this path has to be loaded.
    Load(String),
    /// Nothing; whether there is a usable configuration.
    Ready(bool),
}

/// What a [`LoadEvent`] says.
pub enum LoadEventView {
    Stamps(Seq<Stamp>),
    Loaded(TableView, Seq<Seq<char>>, Seq<Stamp>),
    Failed,
}

/// What a [`LoadStep`] says.
pub enum LoadStepView {
    Load(Seq<char>),
    Ready(bool),
}

impl View for LoadEvent {
    type V = LoadEventView;

    open spec fn view(&self) -> LoadEventView {
        match self {
            LoadEvent::Stamps(now) => LoadEventView::Stamps(now@),
            LoadEvent::Loaded(loaded, stamps) => LoadEventView::Loaded(
                loaded.table@,
                texts(loaded.sources@),
                stamps@,
            ),
            LoadEvent::Failed => LoadEventView::Failed,
        }
    }
}

impl View for LoadStep {
    type V = LoadStepView;

    open spec fn view(&self) -> LoadStepView {
        match self {
            LoadStep::Load(path) => LoadStepView::Load(path@),
            LoadStep::Ready(usable) => LoadStepView::Ready(*usable),
        }
    }
}

/// What a list of sources with their stamps holds.
pub open spec fn source_views(sources: Seq<(String, Stamp)>) -> Seq<(Seq<char>, Stamp)> {
    sources.map_values(|e: (String, Stamp)| (e.0@, e.1))
}

/// Every source can still be looked at and has the stamp that was recorded for it.
pub open spec fn unchanged(sources: Seq<(Seq<char>, Stamp)>, now: Seq<Stamp>) -> bool {
    &&& sources.len() == now.len()
    &&& forall|i: int|
        0 <= i < sources.len() ==> (#[trigger] now[i]) is Some && now[i] == sources[i].1
}

/// The sources, each with its stamp; one that has no stamp in the list cannot be told.
pub open spec fn stamped(sources: Seq<Seq<char>>, stamps: Seq<Stamp>) -> Seq<(Seq<char>, Stamp)> {
    Seq::new(
        sources.len(),
        |i: int|
            (
                sources[i],
                if i < stamps.len() {
                    stamps[i]
                } else {
                    None
                },
            ),
    )
}

/// True if every source still has the stamp that was recorded for it, so the configuration is
/// still current. A now-missing or unreadable file reads as changed.
pub fn sources_unchanged(sources: &Vec<(String, Stamp)>, now: &Vec<Stamp>) -> (same: bool)
    ensures
        same == unchanged(source_views(sources@), now@),
        same <==> {
            &&& sources@.len() == now@.len()
            &&& forall|i: int|
                0 <= i < now@.len() ==> (#[trigger] now@[i]) is Some && now@[i] == sources@[i].1
        },
{
    let ghost recorded = source_views(sources@);
    if sources.len() != now.len() {
        return false;
    }
    let mut i: usize = 0;
    while i < sources.len()
        invariant
            i <= sources.len(),
            sources.len() == now.len(),
            recorded == source_views(sources@),
            forall|j: int|
                0 <= j < i ==> (#[trigger] now@[j]) is Some && now@[j] == recorded[j].1,
        decreases sources.len() - i,
    {
        assert(recorded[i as int].1 == sources@[i as int].1);
        match (now[i], sources[i].1) {
            (Some(a), Some(b)) if a == b => {},
            _ => {
                assert(!(now@[i as int] is Some && now@[i as int] == recorded[i as int].1));
                return false;
            },
        }
        i = i + 1;
    }
    true
}

/// The sources, each with its stamp.
fn stamp_sources(sources: Vec<String>, stamps: &Vec<Stamp>) -> (result: Vec<(String, Stamp)>)
    ensures
        source_views(result@) == stamped(texts(sources@), stamps@),
{
    let ghost list = sources@;
    let mut result: Vec<(String, Stamp)> = Vec::new();
    let ghost whole = stamped(texts(list), stamps@);
    for source in it: sources
        invariant
            it.seq() == list,
            whole == stamped(texts(list), stamps@),
            result@.len() == it.index(),
            source_views(result@) == whole.take(it.index()),
    {
        let ghost i = it.index();
        let ghost before = source_views(result@);
        let n: usize = result.len();
        let stamp: Stamp = if n < stamps.len() {
            stamps[n]
        } else {
            None
        };
        result.push((source, stamp));
        assert(source_views(result@) =~= before.push((source@, stamp)));
        assert(whole.take(i + 1) =~= whole.take(i).push(whole[i]));
    }
    assert(whole.take(whole.len() as int) =~= whole);
    result
}

/// Keeps the connections of a configuration applied, pass after pass.
///
/// The configuration is reloaded only when a source file changes, and regular expressions are
/// compiled again only when it is.
pub struct Reconciler {
    config_path: String,
    config: Option<CachedConfig>,
    regex_cache: RegexCache,
}

impl View for CachedConfig {
    type V = CachedView;

    closed spec fn view(&self) -> CachedView {
        CachedView { table: self.table@, sources: source_views(self.sources@) }
    }
}

impl View for Reconciler {
    type V = ReconcilerView;

    closed spec fn view(&self) -> ReconcilerView {
        ReconcilerView {
            config_path: self.config_path@,
            config: match self.config {
                Some(config) => Some(config@),
                None => None,
            },
            patterns: self.regex_cache.patterns(),
        }
    }
}

impl ReconcilerView {
    /// The state, and what is left to do, after an event.
    ///
    /// A configuration whose sources are unchanged is kept, and so is one that could not be
    /// loaded anew; a newly loaded one takes its place, and no regular expression is kept.
    pub open spec fn after(self, event: LoadEventView) -> (ReconcilerView, LoadStepView) {
        match event {
            LoadEventView::Stamps(now) => if self.config matches Some(config) && unchanged(
                config.sources,
                now,
            ) {
                (self, LoadStepView::Ready(true))
            } else {
                (self, LoadStepView::Load(self.config_path))
            },
            LoadEventView::Loaded(table, sources, stamps) => (
                ReconcilerView {
                    config: Some(CachedView { table, sources: stamped(sources, stamps) }),
                    patterns: Set::empty(),
                    ..self
                },
                LoadStepView::Ready(true),
            ),
            LoadEventView::Failed => (self, LoadStepView::Ready(self.config is Some)),
        }
    }

    /// The files that the configuration was built from.
    pub open spec fn sources(self) -> Seq<Seq<char>> {
        match self.config {
            Some(config) => config.sources.map_values(|e: (Seq<char>, Stamp)| e.0),
            None => seq![],
        }
    }
}

impl Reconciler {
    /// Nothing has been loaded from `config_path` yet.
    pub fn new(config_path: String) -> (reconciler: Reconciler)
        ensures
            reconciler@ == (ReconcilerView {
                config_path: config_path@,
                config: None,
                patterns: Set::empty(),
            }),
    {
        Reconciler { config_path, config: None, regex_cache: RegexCache::new() }
    }

    /// The files that the configuration was built from, to be looked at for changes.
    pub fn sources(&self) -> (sources: Vec<String>)
        ensures
            texts(sources@) == self@.sources(),
    {
        let mut sources: Vec<String> = Vec::new();
        assert(texts(sources@) =~= seq![]);
        if let Some(config) = &self.config {
            let ghost all = self@.sources();
            let mut i: usize = 0;
            while i < config.sources.len()
                invariant
                    i <= config.sources.len(),
                    all == config@.sources.map_values(|e: (Seq<char>, Stamp)| e.0),
                    texts(sources@) == all.take(i as int),
                decreases config.sources.len() - i,
            {
                let ghost before = texts(sources@);
                sources.push(config.sources[i].0.clone());
                assert(texts(sources@) =~= before.push(config.sources@[i as int].0@));
                assert(all.take(i + 1) =~= all.take(i as int).push(all[i as int]));
                i = i + 1;
            }
            assert(all.take(all.len() as int) =~= all);
        }
        sources
    }

    /// Goes one step towards an up-to-date configuration.
    ///
    /// It is loaded anew only when a source file changed. In the end there is no usable
    /// configuration only when the initial load failed; a failed *re*load keeps the last-good
    /// configuration so a transient bad edit doesn't tear down live connections.
    pub fn ensure_loaded(&mut self, event: LoadEvent) -> (step: LoadStep)
        ensures
            (final(self)@, step@) == old(self)@.after(event@),
    {
        match event {
            LoadEvent::Stamps(now) => {
                if let Some(config) = &self.config {
                    if sources_unchanged(&config.sources, &now) {
                        return LoadStep::Ready(true);
                    }
                }
                LoadStep::Load(self.config_path.clone())
            },
            LoadEvent::Loaded(loaded, stamps) => {
                let Loaded { table, sources } = loaded;
                let sources = stamp_sources(sources, &stamps);
                self.config = Some(CachedConfig { table, sources });
                // Patterns may have changed; drop any stale compiled regexes.
                self.regex_cache = RegexCache::new();
                LoadStep::Ready(true)
            },
            LoadEvent::Failed => LoadStep::Ready(self.config.is_some()),
        }
    }

    /// Starts a pass that applies the declared connections to a graph with these ports; nothing
    /// where there is no configuration.
    pub fn reconcile(&mut self, all_ports: Vec<String>) -> (pass: Option<Pass>)
        ensures
            match old(self)@.config {
                Some(config) => {
                    &&& pass is Some
                    &&& pass->0.wf()
                    &&& pass->0@ == started(plan(texts(all_ports@), config.table))
                    &&& is_finite(config.table)
                    &&& final(self)@ == (ReconcilerView {
                        patterns: old(self)@.patterns.union(
                            patterns(texts(all_ports@), config.table),
                        ),
                        ..old(self)@
                    })
                },
                None => pass is None && final(self)@ == old(self)@,
            },
    {
        let ports = Ports::new(all_ports);
        match &self.config {
            Some(config) => Some(apply(&ports, &config.table, &mut self.regex_cache)),
            None => None,
        }
    }

    /// The regular expressions of the configuration that turned out not to compile, each once and
    /// with the reason.
    pub fn refused(&self) -> (refused: &Vec<Refusal>)
        ensures
            lists_refused(refusal_views(refused@), self@.patterns),
            forall|i: int|
                0 <= i < refused@.len() ==> self@.patterns.contains(
                    (#[trigger] refused@[i]).pattern@,
                ) && regex_language("^(?:"@ + refused@[i].pattern@ + ")"@) == Err::<
                    Set<Seq<char>>,
                    Seq<char>,
                >(refused@[i].message@),
            forall|pattern: Seq<char>| #[trigger]
                self@.patterns.contains(pattern) && regex_language("^(?:"@ + pattern + ")"@) is Err
                    ==> exists|i: int|
                    0 <= i < refused@.len() && (#[trigger] refused@[i]).pattern@ == pattern,
            forall|i: int, j: int|
                0 <= i < j < refused@.len() ==> (#[trigger] refused@[i]).pattern@ != (
                #[trigger] refused@[j]).pattern@,
    {
        self.regex_cache.refused()
    }
}

} // verus!
