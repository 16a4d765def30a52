//! What loading a map comes to, case by case.
use vstd::prelude::*;

use crate::config::{answer, including, loading, opening, path_in, DiskView, LoadView};
use crate::merge::merged;
use crate::paths::{included_path, PathStyle};
use crate::value::{TableView, Tree};

verus! {

/// The answer about a key is the first one that was given about it.
pub proof fn the_first_answer_counts<K, A>(answers: Seq<(K, A)>, key: K)
    ensures
        match answer(answers, key) {
            Some(found) => exists|i: int|
                0 <= i < answers.len() && #[trigger] answers[i] == (key, found) && forall|j: int|
                    0 <= j < i ==> (#[trigger] answers[j]).0 != key,
            None => forall|i: int| 0 <= i < answers.len() ==> (#[trigger] answers[i]).0 != key,
        },
    decreases answers.len(),
{
    if answers.len() > 0 {
        let fewer = answers.drop_last();
        the_first_answer_counts(fewer, key);
        match answer(fewer, key) {
            Some(found) => {
                let i = choose|i: int|
                    0 <= i < fewer.len() && #[trigger] fewer[i] == (key, found) && forall|j: int|
                        0 <= j < i ==> (#[trigger] fewer[j]).0 != key;
                assert(answers[i] == (key, found));
                assert forall|j: int| 0 <= j < i implies (#[trigger] answers[j]).0 != key by {
                    assert(fewer[j].0 != key);
                }
            },
            None => {
                assert forall|j: int| 0 <= j < fewer.len() implies (#[trigger] answers[j]).0
                    != key by {
                    assert(fewer[j].0 != key);
                }
                if answers.last().0 == key {
                    assert(answers[answers.len() - 1] == (key, answers.last().1));
                }
            },
        }
    }
}

/// Where names are put together with slashes, the path of an included name follows from the name of
/// the including file; otherwise it is what the host told of the two.
pub proof fn paths_follow_from_names_or_from_the_host(
    disk: DiskView,
    file: Seq<char>,
    name: Seq<char>,
)
    ensures
        disk.style == PathStyle::Slashes ==> path_in(disk, file, name) == Some(
            included_path(file, name),
        ),
        disk.style == PathStyle::Host ==> path_in(disk, file, name) == answer(
            disk.paths,
            (file, name),
        ),
{
}

/// A path whose canonical name is not known is asked for; one that has none cannot be loaded, and
/// neither can a file that is being loaded already.
pub proof fn a_path_needs_a_file(disk: DiskView, path: Seq<char>, chain: Set<Seq<char>>)
    ensures
        match answer(disk.names, path) {
            None => loading(disk, path, chain) == LoadView::Resolve(path),
            Some(Err(why)) => loading(disk, path, chain) == LoadView::Failed(path + ": "@ + why),
            Some(Ok(file)) => chain.contains(file) ==> loading(disk, path, chain)
                == LoadView::Failed("circular include detected at "@ + file),
        },
{
}

/// A file that is not known is asked for; one that holds no document cannot be loaded; one whose
/// document includes nothing is loaded as it stands; and the includes have to be a list.
pub proof fn a_file_needs_a_document(
    disk: DiskView,
    path: Seq<char>,
    chain: Set<Seq<char>>,
    file: Seq<char>,
)
    requires
        answer(disk.names, path) == Some(Ok::<Seq<char>, Seq<char>>(file)),
        !chain.contains(file),
    ensures
        match answer(disk.documents, file) {
            None => loading(disk, path, chain) == LoadView::Read(file),
            Some(Err(why)) => loading(disk, path, chain) == LoadView::Failed(file + ": "@ + why),
            Some(Ok(document)) => {
                &&& !document.contains_key("include"@) ==> loading(disk, path, chain)
                    == LoadView::Complete(document, seq![file])
                &&& document.contains_key("include"@) && !(document["include"@] is Array) ==> loading(
                    disk,
                    path,
                    chain,
                ) == LoadView::Failed("`include` in "@ + file + " must be an array"@)
            },
        },
{
}

proof fn lemma_included_tables(
    disk: DiskView,
    file: Seq<char>,
    includes: Seq<Tree>,
    chain: Set<Seq<char>>,
    tables: Seq<TableView>,
    sources: Seq<Seq<Seq<char>>>,
)
    requires
        tables.len() == includes.len(),
        sources.len() == includes.len(),
        forall|i: int|
            0 <= i < includes.len() ==> {
                &&& (#[trigger] includes[i]) is Text
                &&& path_in(disk, file, includes[i]->Text_0) is Some
                &&& loading(disk, path_in(disk, file, includes[i]->Text_0)->0, chain)
                    == LoadView::Complete(tables[i], sources[i])
            },
    ensures
        including(disk, file, includes, chain) == LoadView::Complete(
            tables.fold_left(TableView::empty(), |a: TableView, b: TableView| merged(a, b)),
            sources.flatten(),
        ),
    decreases includes.len(),
{
    let f = |a: TableView, b: TableView| merged(a, b);
    if includes.len() == 0 {
        assert(sources.flatten() =~= seq![]);
    } else {
        let n = includes.len() - 1;
        assert forall|i: int| 0 <= i < n implies {
            &&& (#[trigger] includes.drop_last()[i]) is Text
            &&& path_in(disk, file, includes.drop_last()[i]->Text_0) is Some
            &&& loading(disk, path_in(disk, file, includes.drop_last()[i]->Text_0)->0, chain)
                == LoadView::Complete(tables.drop_last()[i], sources.drop_last()[i])
        } by {
            assert(includes.drop_last()[i] == includes[i]);
        }
        lemma_included_tables(
            disk,
            file,
            includes.drop_last(),
            chain,
            tables.drop_last(),
            sources.drop_last(),
        );
        assert(includes[n] == includes.last());
        assert(sources.drop_last().push(sources.last()) =~= sources);
        sources.drop_last().lemma_flatten_push(sources.last());
    }
}

/// A file all of whose includes can be loaded is loaded as their maps, merged one into the other in
/// their order and beginning with nothing, with its own entries merged in last. Its sources are the
/// file itself and then those of the includes in turn.
pub proof fn a_map_is_all_of_its_includes_and_itself(
    disk: DiskView,
    path: Seq<char>,
    chain: Set<Seq<char>>,
    file: Seq<char>,
    document: TableView,
    tables: Seq<TableView>,
    sources: Seq<Seq<Seq<char>>>,
)
    requires
        answer(disk.names, path) == Some(Ok::<Seq<char>, Seq<char>>(file)),
        !chain.contains(file),
        answer(disk.documents, file) == Some(Ok::<TableView, Seq<char>>(document)),
        document.contains_key("include"@),
        document["include"@] is Array,
        tables.len() == document["include"@]->Array_0.len(),
        sources.len() == document["include"@]->Array_0.len(),
        forall|i: int|
            0 <= i < document["include"@]->Array_0.len() ==> {
                let item = #[trigger] document["include"@]->Array_0[i];
                &&& item is Text
                &&& path_in(disk, file, item->Text_0) is Some
                &&& loading(disk, path_in(disk, file, item->Text_0)->0, chain.insert(file))
                    == LoadView::Complete(tables[i], sources[i])
            },
    ensures
        loading(disk, path, chain) == LoadView::Complete(
            merged(
                tables.fold_left(TableView::empty(), |a: TableView, b: TableView| merged(a, b)),
                document.remove("include"@),
            ),
            seq![file] + sources.flatten(),
        ),
{
    lemma_included_tables(
        disk,
        file,
        document["include"@]->Array_0,
        chain.insert(file),
        tables,
        sources,
    );
}

proof fn lemma_first_trouble(
    disk: DiskView,
    file: Seq<char>,
    includes: Seq<Tree>,
    chain: Set<Seq<char>>,
    k: int,
)
    requires
        0 <= k < includes.len(),
        forall|i: int|
            0 <= i < k ==> {
                &&& (#[trigger] includes[i]) is Text
                &&& path_in(disk, file, includes[i]->Text_0) is Some
                &&& loading(disk, path_in(disk, file, includes[i]->Text_0)->0, chain) is Complete
            },
        !(includes[k] is Text && path_in(disk, file, includes[k]->Text_0) is Some && loading(
            disk,
            path_in(disk, file, includes[k]->Text_0)->0,
            chain,
        ) is Complete),
    ensures
        including(disk, file, includes, chain) == (if !(includes[k] is Text) {
            LoadView::Failed("`include` in "@ + file + " must be path strings"@)
        } else {
            match path_in(disk, file, includes[k]->Text_0) {
                None => LoadView::Join(file, includes[k]->Text_0),
                Some(path) => loading(disk, path, chain),
            }
        }),
    decreases includes.len(),
{
    let fewer = includes.drop_last();
    if k < includes.len() - 1 {
        assert(fewer[k] == includes[k]);
        assert forall|i: int| 0 <= i < k implies {
            &&& (#[trigger] fewer[i]) is Text
            &&& path_in(disk, file, fewer[i]->Text_0) is Some
            &&& loading(disk, path_in(disk, file, fewer[i]->Text_0)->0, chain) is Complete
        } by {
            assert(fewer[i] == includes[i]);
        }
        lemma_first_trouble(disk, file, fewer, chain, k);
    } else {
        let tables = Seq::new(
            k as nat,
            |i: int|
                loading(disk, path_in(disk, file, includes[i]->Text_0)->0, chain)->Complete_0,
        );
        let sources = Seq::new(
            k as nat,
            |i: int|
                loading(disk, path_in(disk, file, includes[i]->Text_0)->0, chain)->Complete_1,
        );
        assert forall|i: int| 0 <= i < fewer.len() implies {
            &&& (#[trigger] fewer[i]) is Text
            &&& path_in(disk, file, fewer[i]->Text_0) is Some
            &&& loading(disk, path_in(disk, file, fewer[i]->Text_0)->0, chain)
                == LoadView::Complete(tables[i], sources[i])
        } by {
            assert(fewer[i] == includes[i]);
        }
        lemma_included_tables(disk, file, fewer, chain, tables, sources);
    }
}

/// Where the includes of a file cannot all be loaded, the first that cannot decides what is asked
/// for or why loading fails.
pub proof fn the_first_trouble_decides(
    disk: DiskView,
    path: Seq<char>,
    chain: Set<Seq<char>>,
    file: Seq<char>,
    document: TableView,
    k: int,
)
    requires
        answer(disk.names, path) == Some(Ok::<Seq<char>, Seq<char>>(file)),
        !chain.contains(file),
        answer(disk.documents, file) == Some(Ok::<TableView, Seq<char>>(document)),
        document.contains_key("include"@),
        document["include"@] is Array,
        0 <= k < document["include"@]->Array_0.len(),
        forall|i: int|
            0 <= i < k ==> {
                let item = #[trigger] document["include"@]->Array_0[i];
                &&& item is Text
                &&& path_in(disk, file, item->Text_0) is Some
                &&& loading(disk, path_in(disk, file, item->Text_0)->0, chain.insert(file)) is Complete
            },
        ({
            let item = document["include"@]->Array_0[k];
            !(item is Text && path_in(disk, file, item->Text_0) is Some && loading(
                disk,
                path_in(disk, file, item->Text_0)->0,
                chain.insert(file),
            ) is Complete)
        }),
    ensures
        ({
            let item = document["include"@]->Array_0[k];
            loading(disk, path, chain) == (if !(item is Text) {
                LoadView::Failed("`include` in "@ + file + " must be path strings"@)
            } else {
                match path_in(disk, file, item->Text_0) {
                    None => LoadView::Join(file, item->Text_0),
                    Some(next) => loading(disk, next, chain.insert(file)),
                }
            })
        }),
{
    lemma_first_trouble(disk, file, document["include"@]->Array_0, chain.insert(file), k);
}

/// What holds of a file holds of a document that has been read from one: without includes it is
/// taken as it stands, and the includes have to be a list.
pub proof fn a_document_is_opened(
    disk: DiskView,
    file: Seq<char>,
    document: TableView,
    chain: Set<Seq<char>>,
)
    ensures
        !document.contains_key("include"@) ==> opening(disk, file, document, chain)
            == LoadView::Complete(document, seq![file]),
        document.contains_key("include"@) && !(document["include"@] is Array) ==> opening(
            disk,
            file,
            document,
            chain,
        ) == LoadView::Failed("`include` in "@ + file + " must be an array"@),
{
}

/// A document all of whose includes can be loaded is opened as their maps, merged in their order,
/// with its own entries merged in last.
pub proof fn a_document_is_opened_with_all_of_its_includes(
    disk: DiskView,
    file: Seq<char>,
    document: TableView,
    chain: Set<Seq<char>>,
    tables: Seq<TableView>,
    sources: Seq<Seq<Seq<char>>>,
)
    requires
        document.contains_key("include"@),
        document["include"@] is Array,
        tables.len() == document["include"@]->Array_0.len(),
        sources.len() == document["include"@]->Array_0.len(),
        forall|i: int|
            0 <= i < document["include"@]->Array_0.len() ==> {
                let item = #[trigger] document["include"@]->Array_0[i];
                &&& item is Text
                &&& path_in(disk, file, item->Text_0) is Some
                &&& loading(disk, path_in(disk, file, item->Text_0)->0, chain)
                    == LoadView::Complete(tables[i], sources[i])
            },
    ensures
        opening(disk, file, document, chain) == LoadView::Complete(
            merged(
                tables.fold_left(TableView::empty(), |a: TableView, b: TableView| merged(a, b)),
                document.remove("include"@),
            ),
            seq![file] + sources.flatten(),
        ),
{
    lemma_included_tables(disk, file, document["include"@]->Array_0, chain, tables, sources);
}

/// Where the includes of a document cannot all be loaded, the first that cannot decides.
pub proof fn the_first_trouble_of_a_document_decides(
    disk: DiskView,
    file: Seq<char>,
    document: TableView,
    chain: Set<Seq<char>>,
    k: int,
)
    requires
        document.contains_key("include"@),
        document["include"@] is Array,
        0 <= k < document["include"@]->Array_0.len(),
        forall|i: int|
            0 <= i < k ==> {
                let item = #[trigger] document["include"@]->Array_0[i];
                &&& item is Text
                &&& path_in(disk, file, item->Text_0) is Some
                &&& loading(disk, path_in(disk, file, item->Text_0)->0, chain) is Complete
            },
        ({
            let item = document["include"@]->Array_0[k];
            !(item is Text && path_in(disk, file, item->Text_0) is Some && loading(
                disk,
                path_in(disk, file, item->Text_0)->0,
                chain,
            ) is Complete)
        }),
    ensures
        ({
            let item = document["include"@]->Array_0[k];
            opening(disk, file, document, chain) == (if !(item is Text) {
                LoadView::Failed("`include` in "@ + file + " must be path strings"@)
            } else {
                match path_in(disk, file, item->Text_0) {
                    None => LoadView::Join(file, item->Text_0),
                    Some(next) => loading(disk, next, chain),
                }
            })
        }),
{
    lemma_first_trouble(disk, file, document["include"@]->Array_0, chain, k);
}

} // verus!
