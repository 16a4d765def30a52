//! What holds of loading a map from several files.
use vstd::prelude::*;

use crate::config::{
    answer, including, lemma_opening, loading, path_in, unopened, DiskView, LoadView,
};
use crate::merge::{joined, merged, merging_a_common_key, merging_keeps_every_key};
use crate::value::{TableView, Tree};

verus! {

/// What loading asks for is not known yet.
pub open spec fn asks_for_the_unknown(disk: DiskView, load: LoadView) -> bool {
    match load {
        LoadView::Join(file, name) => path_in(disk, file, name) is None,
        LoadView::Resolve(path) => answer(disk.names, path) is None,
        LoadView::Read(file) => answer(disk.documents, file) is None,
        _ => true,
    }
}

/// The item of an include list of `file` is a name whose path is known.
pub open spec fn is_placed(disk: DiskView, file: Seq<char>, item: Tree) -> bool {
    item is Text && path_in(disk, file, item->Text_0) is Some
}

/// The path that an item of an include list of `file` stands for.
pub open spec fn place(disk: DiskView, file: Seq<char>, item: Tree) -> Seq<char> {
    path_in(disk, file, item->Text_0)->0
}

/// Loading asks only for what is not known yet, so that every answer brings it further.
pub proof fn loading_asks_for_the_unknown(disk: DiskView, path: Seq<char>, chain: Set<Seq<char>>)
    ensures
        asks_for_the_unknown(disk, loading(disk, path, chain)),
    decreases unopened(disk, chain).len(), 0nat,
{
    if let Some(Ok(file)) = answer(disk.names, path) {
        if !chain.contains(file) {
            if let Some(Ok(document)) = answer(disk.documents, file) {
                lemma_opening(disk, chain, file);
                if document.contains_key("include"@) && document["include"@] is Array {
                    lemma_including_asks(
                        disk,
                        file,
                        document["include"@]->Array_0,
                        chain.insert(file),
                    );
                }
            }
        }
    }
}

proof fn lemma_including_asks(
    disk: DiskView,
    file: Seq<char>,
    includes: Seq<Tree>,
    chain: Set<Seq<char>>,
)
    ensures
        asks_for_the_unknown(disk, including(disk, file, includes, chain)),
    decreases unopened(disk, chain).len(), includes.len(),
{
    if includes.len() > 0 {
        lemma_including_asks(disk, file, includes.drop_last(), chain);
        if is_placed(disk, file, includes.last()) {
            loading_asks_for_the_unknown(
                disk,
                place(disk, file, includes.last()),
                chain,
            );
        }
    }
}

/// `more` has every answer that `answers` has.
pub open spec fn extends<K, A>(answers: Seq<(K, A)>, more: Seq<(K, A)>) -> bool {
    forall|key: K|
        answer(answers, key) is Some ==> #[trigger] answer(more, key) == answer(answers, key)
}

/// `more` is about the same files, and every answer that `disk` has is there too.
pub open spec fn knows_more(disk: DiskView, more: DiskView) -> bool {
    &&& disk.style == more.style
    &&& extends(disk.paths, more.paths)
    &&& extends(disk.names, more.names)
    &&& extends(disk.documents, more.documents)
}

/// An answer that is added behind others replaces none of them.
pub proof fn adding_an_answer_extends<K, A>(answers: Seq<(K, A)>, added: (K, A))
    ensures
        extends(answers, answers.push(added)),
{
    assert(answers.push(added).drop_last() =~= answers);
}

/// What loading has come to does not change when more becomes known.
pub proof fn knowing_more_keeps_the_outcome(
    disk: DiskView,
    more: DiskView,
    path: Seq<char>,
    chain: Set<Seq<char>>,
)
    requires
        knows_more(disk, more),
        loading(disk, path, chain) is Failed || loading(disk, path, chain) is Complete,
    ensures
        loading(more, path, chain) == loading(disk, path, chain),
    decreases unopened(disk, chain).len(), 0nat,
{
    if let Some(Ok(file)) = answer(disk.names, path) {
        assert(answer(more.names, path) == answer(disk.names, path));
        if !chain.contains(file) {
            if let Some(Ok(document)) = answer(disk.documents, file) {
                assert(answer(more.documents, file) == answer(disk.documents, file));
                lemma_opening(disk, chain, file);
                if document.contains_key("include"@) && document["include"@] is Array {
                    lemma_knowing_more(
                        disk,
                        more,
                        file,
                        document["include"@]->Array_0,
                        chain.insert(file),
                    );
                }
            } else {
                assert(answer(more.documents, file) == answer(disk.documents, file));
            }
        }
    } else {
        assert(answer(more.names, path) == answer(disk.names, path));
    }
}

proof fn lemma_knowing_more(
    disk: DiskView,
    more: DiskView,
    file: Seq<char>,
    includes: Seq<Tree>,
    chain: Set<Seq<char>>,
)
    requires
        knows_more(disk, more),
        including(disk, file, includes, chain) is Failed || including(
            disk,
            file,
            includes,
            chain,
        ) is Complete,
    ensures
        including(more, file, includes, chain) == including(disk, file, includes, chain),
    decreases unopened(disk, chain).len(), includes.len(),
{
    if includes.len() > 0 {
        lemma_knowing_more(disk, more, file, includes.drop_last(), chain);
        if including(disk, file, includes.drop_last(), chain) is Complete && is_placed(
            disk,
            file,
            includes.last(),
        ) {
            knowing_more_keeps_the_outcome(
                disk,
                more,
                place(disk, file, includes.last()),
                chain,
            );
        }
    }
}

/// The `include` directive itself never survives as a client.
pub proof fn no_include_is_left(disk: DiskView, path: Seq<char>, chain: Set<Seq<char>>)
    ensures
        loading(disk, path, chain) matches LoadView::Complete(table, _) ==> !table.contains_key(
            "include"@,
        ),
    decreases unopened(disk, chain).len(), 0nat,
{
    if let Some(Ok(file)) = answer(disk.names, path) {
        if !chain.contains(file) {
            if let Some(Ok(document)) = answer(disk.documents, file) {
                lemma_opening(disk, chain, file);
                if document.contains_key("include"@) && document["include"@] is Array {
                    let includes = document["include"@]->Array_0;
                    lemma_no_include_is_left(disk, file, includes, chain.insert(file));
                    if let LoadView::Complete(table, _) = including(
                        disk,
                        file,
                        includes,
                        chain.insert(file),
                    ) {
                        merging_keeps_every_key(
                            table,
                            document.remove("include"@),
                            "include"@,
                        );
                    }
                }
            }
        }
    }
}

proof fn lemma_no_include_is_left(
    disk: DiskView,
    file: Seq<char>,
    includes: Seq<Tree>,
    chain: Set<Seq<char>>,
)
    ensures
        including(disk, file, includes, chain) matches LoadView::Complete(
            table,
            _,
        ) ==> !table.contains_key("include"@),
    decreases unopened(disk, chain).len(), includes.len(),
{
    if includes.len() > 0 {
        lemma_no_include_is_left(disk, file, includes.drop_last(), chain);
        if is_placed(disk, file, includes.last()) {
            let path = place(disk, file, includes.last());
            no_include_is_left(disk, path, chain);
            if let LoadView::Complete(table, _) = including(
                disk,
                file,
                includes.drop_last(),
                chain,
            ) {
                if let LoadView::Complete(more, _) = loading(disk, path, chain) {
                    merging_keeps_every_key(table, more, "include"@);
                }
            }
        }
    }
}

/// The file that a path stands for.
pub open spec fn file_at(disk: DiskView, path: Seq<char>) -> Option<Seq<char>> {
    match answer(disk.names, path) {
        Some(Ok(file)) => Some(file),
        _ => None,
    }
}

/// The include list of a file.
pub open spec fn includes_of(disk: DiskView, file: Seq<char>) -> Seq<Tree> {
    match answer(disk.documents, file) {
        Some(Ok(document)) => if document.contains_key("include"@) && document["include"@] is Array {
            document["include"@]->Array_0
        } else {
            seq![]
        },
        _ => seq![],
    }
}

/// Following `n` includes from the file at `path`, one can come to `target`.
pub open spec fn leads_to(disk: DiskView, path: Seq<char>, target: Seq<char>, n: nat) -> bool
    decreases n, 0nat,
{
    match file_at(disk, path) {
        None => false,
        Some(file) => if n == 0 {
            file == target
        } else {
            included_leads_to(disk, file, target, (n - 1) as nat)
        },
    }
}

/// Following an include of `file` and `n` more, one can come to `target`.
pub open spec fn included_leads_to(
    disk: DiskView,
    file: Seq<char>,
    target: Seq<char>,
    n: nat,
) -> bool
    decreases n, 1nat,
{
    exists|i: int|
        0 <= i < includes_of(disk, file).len() && is_placed(
            disk,
            file,
            includes_of(disk, file)[i],
        ) && leads_to(
            disk,
            place(disk, file, #[trigger] includes_of(disk, file)[i]),
            target,
            n,
        )
}

proof fn lemma_each_include_loads(
    disk: DiskView,
    file: Seq<char>,
    includes: Seq<Tree>,
    chain: Set<Seq<char>>,
    i: int,
)
    requires
        including(disk, file, includes, chain) is Complete,
        0 <= i < includes.len(),
    ensures
        is_placed(disk, file, includes[i]),
        loading(disk, place(disk, file, includes[i]), chain) is Complete,
    decreases includes.len(),
{
    if i < includes.len() - 1 {
        lemma_each_include_loads(disk, file, includes.drop_last(), chain, i);
    }
}

/// A file that is loaded leads to none of the files that are being loaded around it.
pub proof fn loading_leads_to_nothing_around_it(
    disk: DiskView,
    path: Seq<char>,
    chain: Set<Seq<char>>,
    target: Seq<char>,
    n: nat,
)
    requires
        loading(disk, path, chain) is Complete,
        chain.contains(target),
    ensures
        !leads_to(disk, path, target, n),
    decreases n,
{
    let file = file_at(disk, path)->0;
    if n > 0 && leads_to(disk, path, target, n) {
        let includes = includes_of(disk, file);
        let i = choose|i: int|
            0 <= i < includes.len() && is_placed(disk, file, includes[i]) && leads_to(
                disk,
                place(disk, file, #[trigger] includes[i]),
                target,
                (n - 1) as nat,
            );
        lemma_each_include_loads(disk, file, includes, chain.insert(file), i);
        loading_leads_to_nothing_around_it(
            disk,
            place(disk, file, includes[i]),
            chain.insert(file),
            target,
            (n - 1) as nat,
        );
    }
}

/// Include cycles are rejected: in a map that is loaded, no file that it leads to leads back to
/// itself.
pub proof fn loaded_maps_have_no_cycle(
    disk: DiskView,
    path: Seq<char>,
    chain: Set<Seq<char>>,
    file: Seq<char>,
    n: nat,
    m: nat,
)
    requires
        loading(disk, path, chain) is Complete,
        leads_to(disk, path, file, n),
    ensures
        !included_leads_to(disk, file, file, m),
    decreases n,
{
    let first = file_at(disk, path)->0;
    let includes = includes_of(disk, first);
    if n == 0 {
        if included_leads_to(disk, file, file, m) {
            let i = choose|i: int|
                0 <= i < includes.len() && is_placed(disk, file, includes[i]) && leads_to(
                    disk,
                    place(disk, file, #[trigger] includes[i]),
                    file,
                    m,
                );
            lemma_each_include_loads(disk, file, includes, chain.insert(file), i);
            loading_leads_to_nothing_around_it(
                disk,
                place(disk, file, includes[i]),
                chain.insert(file),
                file,
                m,
            );
        }
    } else {
        let i = choose|i: int|
            0 <= i < includes.len() && is_placed(disk, first, includes[i]) && leads_to(
                disk,
                place(disk, first, #[trigger] includes[i]),
                file,
                (n - 1) as nat,
            );
        lemma_each_include_loads(disk, first, includes, chain.insert(first), i);
        loaded_maps_have_no_cycle(
            disk,
            place(disk, first, includes[i]),
            chain.insert(first),
            file,
            (n - 1) as nat,
            m,
        );
    }
}

/// The path leads to none of these files.
pub open spec fn leads_to_none_of(disk: DiskView, path: Seq<char>, files: Set<Seq<char>>) -> bool {
    forall|file: Seq<char>, n: nat|
        files.contains(file) ==> !#[trigger] leads_to(disk, path, file, n)
}

/// A file that could be loaded in one place is loaded with the same outcome in every other place
/// from which it leads to none of the files around it: sibling and diamond includes are fine.
pub proof fn a_file_loads_alike_everywhere(
    disk: DiskView,
    path: Seq<char>,
    here: Set<Seq<char>>,
    there: Set<Seq<char>>,
)
    requires
        loading(disk, path, here) is Complete,
        leads_to_none_of(disk, path, there),
    ensures
        loading(disk, path, there) == loading(disk, path, here),
    decreases unopened(disk, here).len(), 0nat,
{
    let file = file_at(disk, path)->0;
    assert(leads_to(disk, path, file, 0));
    lemma_opening(disk, here, file);
    let includes = includes_of(disk, file);
    let document = answer(disk.documents, file)->0->Ok_0;
    if document.contains_key("include"@) {
        assert forall|i: int|
            0 <= i < includes.len() && is_placed(
                disk,
                file,
                includes[i],
            ) implies leads_to_none_of(
            disk,
            place(disk, file, #[trigger] includes[i]),
            there,
        ) by {
            let next = place(disk, file, includes[i]);
            assert forall|other: Seq<char>, n: nat| there.contains(other) implies !#[trigger] leads_to(
                disk,
                next,
                other,
                n,
            ) by {
                if leads_to(disk, next, other, n) {
                    assert(included_leads_to(disk, file, other, n));
                    assert(leads_to(disk, path, other, n + 1));
                }
            }
        }
        lemma_includes_load_alike(
            disk,
            file,
            includes,
            here.insert(file),
            there,
            file,
        );
    }
}

proof fn lemma_includes_load_alike(
    disk: DiskView,
    file: Seq<char>,
    includes: Seq<Tree>,
    here: Set<Seq<char>>,
    there: Set<Seq<char>>,
    around: Seq<char>,
)
    requires
        including(disk, file, includes, here) is Complete,
        here.contains(around),
        forall|i: int|
            0 <= i < includes.len() && is_placed(disk, file, includes[i]) ==> leads_to_none_of(
                disk,
                place(disk, file, #[trigger] includes[i]),
                there,
            ),
    ensures
        including(disk, file, includes, there.insert(around)) == including(
            disk,
            file,
            includes,
            here,
        ),
    decreases unopened(disk, here).len(), includes.len(),
{
    if includes.len() > 0 {
        let last = includes.len() - 1;
        assert forall|i: int|
            0 <= i < includes.drop_last().len() && is_placed(
            disk,
            file,
            includes.drop_last()[i],
        ) implies leads_to_none_of(
            disk,
            place(disk, file, #[trigger] includes.drop_last()[i]),
            there,
        ) by {
            assert(includes[i] == includes.drop_last()[i]);
        }
        lemma_includes_load_alike(disk, file, includes.drop_last(), here, there, around);
        lemma_each_include_loads(disk, file, includes, here, last);
        let path = place(disk, file, includes[last]);
        assert(leads_to_none_of(disk, path, there));
        assert forall|other: Seq<char>, n: nat| there.insert(around).contains(
            other,
        ) implies !#[trigger] leads_to(disk, path, other, n) by {
            if other == around {
                loading_leads_to_nothing_around_it(disk, path, here, around, n);
            }
        }
        a_file_loads_alike_everywhere(disk, path, here, there.insert(around));
    }
}

/// The sources of a loaded map are the files that its path leads to, and no others.
pub proof fn sources_are_what_the_path_leads_to(
    disk: DiskView,
    path: Seq<char>,
    chain: Set<Seq<char>>,
    file: Seq<char>,
)
    requires
        loading(disk, path, chain) is Complete,
    ensures
        loading(disk, path, chain)->Complete_1.contains(file) <==> exists|n: nat|
            leads_to(disk, path, file, n),
{
    if loading(disk, path, chain)->Complete_1.contains(file) {
        lemma_a_source_is_led_to(disk, path, chain, file);
    }
    if exists|n: nat| leads_to(disk, path, file, n) {
        let n = choose|n: nat| leads_to(disk, path, file, n);
        lemma_what_is_led_to_is_a_source(disk, path, chain, file, n);
    }
}

proof fn lemma_a_source_is_led_to(
    disk: DiskView,
    path: Seq<char>,
    chain: Set<Seq<char>>,
    target: Seq<char>,
)
    requires
        loading(disk, path, chain) is Complete,
        loading(disk, path, chain)->Complete_1.contains(target),
    ensures
        exists|n: nat| leads_to(disk, path, target, n),
    decreases unopened(disk, chain).len(), 0nat,
{
    let file = file_at(disk, path)->0;
    lemma_opening(disk, chain, file);
    let sources = loading(disk, path, chain)->Complete_1;
    let j = choose|j: int| 0 <= j < sources.len() && sources[j] == target;
    if j == 0 {
        assert(leads_to(disk, path, target, 0));
    } else {
        let includes = includes_of(disk, file);
        let more = including(disk, file, includes, chain.insert(file))->Complete_1;
        assert(more[j - 1] == target);
        lemma_an_included_source_is_led_to(disk, file, includes, chain.insert(file), target);
        let (i, n) = choose|i: int, n: nat|
            0 <= i < includes.len() && is_placed(disk, file, includes[i]) && #[trigger] leads_to(
                disk,
                place(disk, file, #[trigger] includes[i]),
                target,
                n,
            );
        assert(included_leads_to(disk, file, target, n));
        assert(leads_to(disk, path, target, n + 1));
    }
}

proof fn lemma_an_included_source_is_led_to(
    disk: DiskView,
    file: Seq<char>,
    includes: Seq<Tree>,
    chain: Set<Seq<char>>,
    target: Seq<char>,
)
    requires
        including(disk, file, includes, chain) is Complete,
        including(disk, file, includes, chain)->Complete_1.contains(target),
    ensures
        exists|i: int, n: nat|
            0 <= i < includes.len() && is_placed(disk, file, includes[i]) && #[trigger] leads_to(
                disk,
                place(disk, file, #[trigger] includes[i]),
                target,
                n,
            ),
    decreases unopened(disk, chain).len(), includes.len(),
{
    let sources = including(disk, file, includes, chain)->Complete_1;
    let j = choose|j: int| 0 <= j < sources.len() && sources[j] == target;
    let before = including(disk, file, includes.drop_last(), chain)->Complete_1;
    let last = includes.len() - 1;
    if j < before.len() {
        assert(before[j] == target);
        lemma_an_included_source_is_led_to(disk, file, includes.drop_last(), chain, target);
        let (i, n) = choose|i: int, n: nat|
            0 <= i < includes.drop_last().len() && is_placed(disk, file, includes.drop_last()[i])
                && #[trigger] leads_to(
                disk,
                place(disk, file, #[trigger] includes.drop_last()[i]),
                target,
                n,
            );
        assert(includes[i] == includes.drop_last()[i]);
        assert(leads_to(disk, place(disk, file, includes[i]), target, n));
    } else {
        let path = place(disk, file, includes[last]);
        let more = loading(disk, path, chain)->Complete_1;
        assert(more[j - before.len()] == target);
        lemma_a_source_is_led_to(disk, path, chain, target);
        let n = choose|n: nat| leads_to(disk, path, target, n);
        assert(leads_to(disk, place(disk, file, includes[last]), target, n));
    }
}

proof fn lemma_what_is_led_to_is_a_source(
    disk: DiskView,
    path: Seq<char>,
    chain: Set<Seq<char>>,
    target: Seq<char>,
    n: nat,
)
    requires
        loading(disk, path, chain) is Complete,
        leads_to(disk, path, target, n),
    ensures
        loading(disk, path, chain)->Complete_1.contains(target),
    decreases n,
{
    let file = file_at(disk, path)->0;
    let sources = loading(disk, path, chain)->Complete_1;
    if n == 0 {
        assert(sources[0] == target);
    } else {
        let includes = includes_of(disk, file);
        let i = choose|i: int|
            0 <= i < includes.len() && is_placed(disk, file, includes[i]) && leads_to(
                disk,
                place(disk, file, #[trigger] includes[i]),
                target,
                (n - 1) as nat,
            );
        let next = place(disk, file, includes[i]);
        lemma_each_include_loads(disk, file, includes, chain.insert(file), i);
        lemma_what_is_led_to_is_a_source(disk, next, chain.insert(file), target, (n - 1) as nat);
        lemma_included_sources(disk, file, includes, chain.insert(file), i, target);
        let more = including(disk, file, includes, chain.insert(file))->Complete_1;
        let j = choose|j: int| 0 <= j < more.len() && more[j] == target;
        assert(sources[j + 1] == target);
    }
}

proof fn lemma_included_sources(
    disk: DiskView,
    file: Seq<char>,
    includes: Seq<Tree>,
    chain: Set<Seq<char>>,
    i: int,
    target: Seq<char>,
)
    requires
        including(disk, file, includes, chain) is Complete,
        0 <= i < includes.len(),
        loading(disk, place(disk, file, includes[i]), chain) is Complete,
        loading(disk, place(disk, file, includes[i]), chain)->Complete_1.contains(target),
    ensures
        including(disk, file, includes, chain)->Complete_1.contains(target),
    decreases includes.len(),
{
    let sources = including(disk, file, includes, chain)->Complete_1;
    let before = including(disk, file, includes.drop_last(), chain)->Complete_1;
    if i < includes.len() - 1 {
        lemma_included_sources(disk, file, includes.drop_last(), chain, i, target);
        let j = choose|j: int| 0 <= j < before.len() && before[j] == target;
        assert(sources[j] == target);
    } else {
        let more = loading(disk, place(disk, file, includes[i]), chain)->Complete_1;
        let j = choose|j: int| 0 <= j < more.len() && more[j] == target;
        assert(sources[before.len() + j] == target);
    }
}

/// The document that a file holds.
pub open spec fn document_of(disk: DiskView, file: Seq<char>) -> TableView {
    answer(disk.documents, file)->0->Ok_0
}

/// What the files that `file` includes come to, merged in their order.
pub open spec fn included_table(disk: DiskView, file: Seq<char>, chain: Set<Seq<char>>) -> TableView {
    including(disk, file, includes_of(disk, file), chain.insert(file))->Complete_0
}

/// A loaded map is what its file includes with the file's own entries merged in, so that these
/// come last: where both give a key of a client a value that is neither a list twice nor a table
/// twice, the file's own value wins; and where both give it a list, the included one comes first,
/// the own one behind it, and duplicates are dropped.
pub proof fn own_entries_come_last(
    disk: DiskView,
    path: Seq<char>,
    chain: Set<Seq<char>>,
    client: Seq<char>,
    key: Seq<char>,
)
    requires
        loading(disk, path, chain) is Complete,
        client != "include"@,
    ensures
        ({
            let file = file_at(disk, path)->0;
            let own = document_of(disk, file);
            let included = included_table(disk, file, chain);
            let table = loading(disk, path, chain)->Complete_0;
            &&& own.contains_key(client) && !included.contains_key(client) ==> table.contains_key(
                client,
            ) && table[client] == own[client]
            &&& !own.contains_key(client) ==> table.contains_key(client) == included.contains_key(
                client,
            ) && (included.contains_key(client) ==> table[client] == included[client])
            &&& own.contains_key(client) && own[client] is Table && included.contains_key(client)
                && included[client] is Table ==> {
                let (o, i) = (own[client]->Table_0, included[client]->Table_0);
                let t = table[client]->Table_0;
                &&& table.contains_key(client) && table[client] is Table
                &&& t.contains_key(key) <==> (o.contains_key(key) || i.contains_key(key))
                &&& o.contains_key(key) && !i.contains_key(key) ==> t[key] == o[key]
                &&& !o.contains_key(key) && i.contains_key(key) ==> t[key] == i[key]
                &&& o.contains_key(key) && i.contains_key(key) && o[key] is Array
                    && i[key] is Array ==> t[key] == Tree::Array(
                    joined(i[key]->Array_0, o[key]->Array_0),
                )
                &&& o.contains_key(key) && i.contains_key(key) && !(o[key] is Array
                    && i[key] is Array) && !(o[key] is Table && i[key] is Table) ==> t[key]
                    == o[key]
            }
            &&& own.contains_key(client) && included.contains_key(client) && !(own[client] is Table
                && included[client] is Table) && !(own[client] is Array
                && included[client] is Array) ==> table.contains_key(client) && table[client]
                == own[client]
        }),
{
    let file = file_at(disk, path)->0;
    let own = document_of(disk, file);
    let included = included_table(disk, file, chain);
    let table = loading(disk, path, chain)->Complete_0;
    if !own.contains_key("include"@) {
        assert(includes_of(disk, file) =~= seq![]);
        assert(included == TableView::empty());
        assert(table == own);
    } else {
        let rest = own.remove("include"@);
        assert(table == merged(included, rest));
        merging_keeps_every_key(included, rest, client);
        if own.contains_key(client) && included.contains_key(client) {
            merging_a_common_key(included, rest, client);
            if own[client] is Table && included[client] is Table {
                let (o, i) = (own[client]->Table_0, included[client]->Table_0);
                merging_keeps_every_key(i, o, key);
                if o.contains_key(key) && i.contains_key(key) {
                    merging_a_common_key(i, o, key);
                }
            }
        }
    }
}

} // verus!
