//! What holds of the state that persists across passes.
use vstd::prelude::*;

use crate::reconciler::{
    stamped, CachedView, LoadEventView, LoadStepView, ReconcilerView, Stamp,
};
use crate::value::TableView;

verus! {

/// There is no usable configuration only where none was ever loaded; one that was stays usable
/// whatever happens, and a failed load leaves it as it is.
pub proof fn a_loaded_config_stays_usable(state: ReconcilerView, event: LoadEventView)
    ensures
        state.config is Some ==> state.after(event).0.config is Some && state.after(event).1
            != LoadStepView::Ready(false),
        event is Failed ==> state.after(event).0 == state,
        state.after(event).1 == LoadStepView::Ready(false) <==> event is Failed
            && state.config is None,
{
}

/// A configuration that has just been loaded is not loaded again as long as its files keep the
/// stamps that they had.
pub proof fn unchanged_files_are_not_loaded_again(
    state: ReconcilerView,
    table: TableView,
    sources: Seq<Seq<char>>,
    stamps: Seq<Stamp>,
)
    requires
        sources.len() == stamps.len(),
        forall|i: int| 0 <= i < stamps.len() ==> (#[trigger] stamps[i]) is Some,
    ensures
        ({
            let loaded = state.after(LoadEventView::Loaded(table, sources, stamps)).0;
            &&& loaded.config == Some(CachedView { table, sources: stamped(sources, stamps) })
            &&& loaded.sources() == sources
            &&& loaded.after(LoadEventView::Stamps(stamps)) == (loaded, LoadStepView::Ready(true))
        }),
{
    let loaded = state.after(LoadEventView::Loaded(table, sources, stamps)).0;
    assert(loaded.sources() =~= sources);
}

/// A file whose stamp differs from the recorded one, or that cannot be looked at any more, makes
/// the configuration be loaded again.
pub proof fn a_changed_file_is_loaded_again(
    state: ReconcilerView,
    config: CachedView,
    now: Seq<Stamp>,
    i: int,
)
    requires
        state.config == Some(config),
        0 <= i < config.sources.len(),
        i < now.len(),
        now[i] is None || now[i] != config.sources[i].1,
    ensures
        state.after(LoadEventView::Stamps(now)) == (state, LoadStepView::Load(state.config_path)),
{
}

/// Compiled regular expressions are dropped when a configuration is loaded, and only then.
pub proof fn patterns_last_as_long_as_the_config(state: ReconcilerView, event: LoadEventView)
    ensures
        event is Loaded ==> state.after(event).0.patterns == Set::<Seq<char>>::empty(),
        !(event is Loaded) ==> state.after(event).0.patterns == state.patterns,
        state.after(event).0.config_path == state.config_path,
{
}

/// A configuration is used as it is just where every file that it was built from can be looked at
/// and has the stamp that was recorded; otherwise, or where there is none, the one at the
/// configured path has to be loaded. Looking changes nothing.
pub proof fn when_a_config_is_current(state: ReconcilerView, now: Seq<Stamp>)
    ensures
        state.after(LoadEventView::Stamps(now)).0 == state,
        state.after(LoadEventView::Stamps(now)).1 == (if state.config is Some && now.len()
            == state.config->0.sources.len() && (forall|i: int|
            0 <= i < now.len() ==> (#[trigger] now[i]) is Some && now[i]
                == state.config->0.sources[i].1) {
            LoadStepView::Ready(true)
        } else {
            LoadStepView::Load(state.config_path)
        }),
{
}

/// What has been loaded is kept: the table, and every source with the stamp that it had.
pub proof fn what_is_loaded_is_kept(
    state: ReconcilerView,
    table: TableView,
    sources: Seq<Seq<char>>,
    stamps: Seq<Stamp>,
)
    ensures
        ({
            let (after, step) = state.after(LoadEventView::Loaded(table, sources, stamps));
            &&& step == LoadStepView::Ready(true)
            &&& after.config_path == state.config_path
            &&& after.config is Some
            &&& after.config->0.table == table
            &&& after.config->0.sources.len() == sources.len()
            &&& forall|i: int|
                0 <= i < sources.len() ==> (#[trigger] after.config->0.sources[i]) == (
                    sources[i],
                    if i < stamps.len() {
                        stamps[i]
                    } else {
                        None
                    },
                )
        }),
{
}

/// A load that failed changes nothing, and there is a usable configuration just where there was.
pub proof fn a_failed_load_changes_nothing(state: ReconcilerView)
    ensures
        state.after(LoadEventView::Failed) == (state, LoadStepView::Ready(state.config is Some)),
{
}

/// The files to be looked at are those that the configuration was built from, one by one; none
/// where there is none.
pub proof fn the_sources_of_a_config(state: ReconcilerView)
    ensures
        state.config is None ==> state.sources().len() == 0,
        state.config is Some ==> state.sources().len() == state.config->0.sources.len(),
        state.config is Some ==> forall|i: int|
            0 <= i < state.sources().len() ==> #[trigger] state.sources()[i]
                == state.config->0.sources[i].0,
{
}

} // verus!
