//! What a loaded map gathers from the files that it leads to.
use vstd::prelude::*;

use crate::config::{answer, including, lemma_opening, loading, unopened, DiskView};
use crate::laws::loading::{
    document_of, file_at, included_leads_to, includes_of, is_placed, leads_to, place,
};
use crate::merge::{
    joining_keeps_every_text, merged, merging_a_common_key, merging_keeps_every_key,
};
use crate::value::{TableView, Tree};

verus! {

/// Some file that the path leads to holds a document with the property.
pub open spec fn some_document(
    disk: DiskView,
    path: Seq<char>,
    p: spec_fn(TableView) -> bool,
) -> bool {
    exists|file: Seq<char>, n: nat| #[trigger]
        leads_to(disk, path, file, n) && p(document_of(disk, file))
}

/// Every file that the path leads to holds a document with the property.
pub open spec fn every_document(
    disk: DiskView,
    path: Seq<char>,
    p: spec_fn(TableView) -> bool,
) -> bool {
    forall|file: Seq<char>, n: nat| #[trigger]
        leads_to(disk, path, file, n) ==> p(document_of(disk, file))
}

/// Merging two tables that are `ok` gives one, and one that has `p` just where one of them has; the
/// include list plays no part.
pub open spec fn is_gathered(
    ok: spec_fn(TableView) -> bool,
    p: spec_fn(TableView) -> bool,
) -> bool {
    &&& ok(TableView::empty())
    &&& !p(TableView::empty())
    &&& forall|a: TableView, b: TableView|
        ok(a) && ok(b) ==> ok(#[trigger] merged(a, b)) && (p(merged(a, b)) <==> p(a) || p(b))
    &&& forall|d: TableView|
        ok(d) ==> ok(#[trigger] d.remove("include"@)) && p(d.remove("include"@)) == p(d)
}

proof fn lemma_one_further(
    disk: DiskView,
    path: Seq<char>,
    file: Seq<char>,
    i: int,
    target: Seq<char>,
    n: nat,
)
    requires
        file_at(disk, path) == Some(file),
        0 <= i < includes_of(disk, file).len(),
        is_placed(disk, file, includes_of(disk, file)[i]),
        leads_to(disk, place(disk, file, includes_of(disk, file)[i]), target, n),
    ensures
        included_leads_to(disk, file, target, n),
        leads_to(disk, path, target, n + 1),
{
    let includes = includes_of(disk, file);
    assert(leads_to(disk, place(disk, file, includes[i]), target, n));
}

proof fn lemma_gathered(
    disk: DiskView,
    path: Seq<char>,
    chain: Set<Seq<char>>,
    ok: spec_fn(TableView) -> bool,
    p: spec_fn(TableView) -> bool,
)
    requires
        is_gathered(ok, p),
        loading(disk, path, chain) is Complete,
        every_document(disk, path, ok),
    ensures
        ok(loading(disk, path, chain)->Complete_0),
        p(loading(disk, path, chain)->Complete_0) <==> some_document(disk, path, p),
    decreases unopened(disk, chain).len(), 0nat,
{
    let file = file_at(disk, path)->0;
    let document = document_of(disk, file);
    let includes = includes_of(disk, file);
    lemma_opening(disk, chain, file);
    assert(leads_to(disk, path, file, 0));
    assert(ok(document));
    if p(document) {
        assert(some_document(disk, path, p));
    }
    if !document.contains_key("include"@) {
        if some_document(disk, path, p) {
            let (target, n) = choose|target: Seq<char>, n: nat| #[trigger]
                leads_to(disk, path, target, n) && p(document_of(disk, target));
            if n > 0 {
                assert(included_leads_to(disk, file, target, (n - 1) as nat));
            }
        }
    } else {
        let rest = document.remove("include"@);
        let inner = including(disk, file, includes, chain.insert(file));
        assert forall|i: int| 0 <= i < includes.len() && is_placed(
            disk,
            file,
            #[trigger] includes[i],
        ) implies every_document(disk, place(disk, file, includes[i]), ok) by {
            assert forall|target: Seq<char>, n: nat| #[trigger]
                leads_to(disk, place(disk, file, includes[i]), target, n) implies ok(
                document_of(disk, target),
            ) by {
                lemma_one_further(disk, path, file, i, target, n);
            }
        }
        lemma_included_gathered(disk, file, includes, chain.insert(file), ok, p);
        let table = inner->Complete_0;
        assert(loading(disk, path, chain)->Complete_0 == merged(table, rest));
        if p(table) {
            let i = choose|i: int|
                0 <= i < includes.len() && is_placed(disk, file, #[trigger] includes[i])
                    && some_document(disk, place(disk, file, includes[i]), p);
            let (target, n) = choose|target: Seq<char>, n: nat| #[trigger]
                leads_to(disk, place(disk, file, includes[i]), target, n) && p(
                    document_of(disk, target),
                );
            lemma_one_further(disk, path, file, i, target, n);
            assert(leads_to(disk, path, target, n + 1) && p(document_of(disk, target)));
        }
        if some_document(disk, path, p) && !p(document) {
            let (target, n) = choose|target: Seq<char>, n: nat| #[trigger]
                leads_to(disk, path, target, n) && p(document_of(disk, target));
            if n > 0 {
                let m = (n - 1) as nat;
                assert(included_leads_to(disk, file, target, m));
                let i = choose|i: int|
                    0 <= i < includes.len() && is_placed(disk, file, includes[i]) && leads_to(
                        disk,
                        place(disk, file, #[trigger] includes[i]),
                        target,
                        m,
                    );
                assert(leads_to(disk, place(disk, file, includes[i]), target, m) && p(
                    document_of(disk, target),
                ));
                assert(some_document(disk, place(disk, file, includes[i]), p));
            }
        }
    }
}

proof fn lemma_included_gathered(
    disk: DiskView,
    file: Seq<char>,
    includes: Seq<Tree>,
    chain: Set<Seq<char>>,
    ok: spec_fn(TableView) -> bool,
    p: spec_fn(TableView) -> bool,
)
    requires
        is_gathered(ok, p),
        including(disk, file, includes, chain) is Complete,
        forall|i: int|
            0 <= i < includes.len() && is_placed(disk, file, #[trigger] includes[i])
                ==> every_document(disk, place(disk, file, includes[i]), ok),
    ensures
        ok(including(disk, file, includes, chain)->Complete_0),
        p(including(disk, file, includes, chain)->Complete_0) <==> exists|i: int|
            0 <= i < includes.len() && is_placed(disk, file, #[trigger] includes[i])
                && some_document(disk, place(disk, file, includes[i]), p),
    decreases unopened(disk, chain).len(), includes.len(),
{
    if includes.len() > 0 {
        let fewer = includes.drop_last();
        let last = includes.len() - 1;
        assert forall|i: int| 0 <= i < fewer.len() && is_placed(
            disk,
            file,
            #[trigger] fewer[i],
        ) implies every_document(disk, place(disk, file, fewer[i]), ok) by {
            assert(fewer[i] == includes[i]);
        }
        lemma_included_gathered(disk, file, fewer, chain, ok, p);
        assert(includes[last] == includes.last());
        assert(is_placed(disk, file, includes[last]));
        lemma_gathered(disk, place(disk, file, includes[last]), chain, ok, p);
        let before = including(disk, file, fewer, chain)->Complete_0;
        let more = loading(disk, place(disk, file, includes[last]), chain)->Complete_0;
        assert(including(disk, file, includes, chain)->Complete_0 == merged(before, more));
        if p(before) {
            let i = choose|i: int|
                0 <= i < fewer.len() && is_placed(disk, file, #[trigger] fewer[i])
                    && some_document(disk, place(disk, file, fewer[i]), p);
            assert(includes[i] == fewer[i]);
        }
        if exists|i: int|
            0 <= i < includes.len() && is_placed(disk, file, #[trigger] includes[i])
                && some_document(disk, place(disk, file, includes[i]), p) {
            let i = choose|i: int|
                0 <= i < includes.len() && is_placed(disk, file, #[trigger] includes[i])
                    && some_document(disk, place(disk, file, includes[i]), p);
            if i < last {
                assert(fewer[i] == includes[i]);
            }
        }
    }
}

/// The clients of a loaded map are those of all the files that it leads to, and no others.
pub proof fn clients_come_from_every_file(
    disk: DiskView,
    path: Seq<char>,
    chain: Set<Seq<char>>,
    client: Seq<char>,
)
    requires
        loading(disk, path, chain) is Complete,
        client != "include"@,
    ensures
        loading(disk, path, chain)->Complete_0.contains_key(client) <==> exists|
            file: Seq<char>,
            n: nat,
        | #[trigger]
            leads_to(disk, path, file, n) && document_of(disk, file).contains_key(client),
{
    let ok = |t: TableView| true;
    let p = |t: TableView| t.contains_key(client);
    assert(is_gathered(ok, p)) by {
        assert forall|a: TableView, b: TableView| ok(a) && ok(b) implies ok(#[trigger] merged(a, b))
            && (p(merged(a, b)) <==> p(a) || p(b)) by {
            merging_keeps_every_key(a, b, client);
        }
    }
    lemma_gathered(disk, path, chain, ok, p);
    assert(some_document(disk, path, p) <==> exists|file: Seq<char>, n: nat| #[trigger]
        leads_to(disk, path, file, n) && document_of(disk, file).contains_key(client)) by {
        if some_document(disk, path, p) {
            let (file, n) = choose|file: Seq<char>, n: nat| #[trigger]
                leads_to(disk, path, file, n) && p(document_of(disk, file));
            assert(leads_to(disk, path, file, n) && document_of(disk, file).contains_key(client));
        }
        if exists|file: Seq<char>, n: nat| #[trigger]
            leads_to(disk, path, file, n) && document_of(disk, file).contains_key(client) {
            let (file, n) = choose|file: Seq<char>, n: nat| #[trigger]
                leads_to(disk, path, file, n) && document_of(disk, file).contains_key(client);
            assert(leads_to(disk, path, file, n) && p(document_of(disk, file)));
        }
    }
}

/// Where the table has the client it is a table, and where that has the key it is a list.
pub open spec fn is_list(table: TableView, client: Seq<char>, key: Seq<char>) -> bool {
    table.contains_key(client) ==> table[client] is Table && (
    table[client]->Table_0.contains_key(key) ==> table[client]->Table_0[key] is Array)
}

/// The table lists the destination under the key of the client.
pub open spec fn lists(
    table: TableView,
    client: Seq<char>,
    key: Seq<char>,
    destination: Seq<char>,
) -> bool {
    &&& table.contains_key(client) && table[client] is Table
    &&& table[client]->Table_0.contains_key(key) && table[client]->Table_0[key] is Array
    &&& table[client]->Table_0[key]->Array_0.contains(Tree::Text(destination))
}

proof fn lemma_merging_lists(
    a: TableView,
    b: TableView,
    client: Seq<char>,
    key: Seq<char>,
    destination: Seq<char>,
)
    requires
        is_list(a, client, key),
        is_list(b, client, key),
    ensures
        is_list(merged(a, b), client, key),
        lists(merged(a, b), client, key, destination) <==> (lists(a, client, key, destination)
            || lists(b, client, key, destination)),
{
    merging_keeps_every_key(a, b, client);
    if a.contains_key(client) && b.contains_key(client) {
        merging_a_common_key(a, b, client);
        let (x, y) = (a[client]->Table_0, b[client]->Table_0);
        merging_keeps_every_key(x, y, key);
        if x.contains_key(key) && y.contains_key(key) {
            merging_a_common_key(x, y, key);
            joining_keeps_every_text(x[key]->Array_0, y[key]->Array_0, destination);
        }
    }
}

/// The destinations of a client's key in a loaded map are those that the files which it leads to
/// list there, all of them and no others, as long as each of these files that has the client has a
/// table there, and under the key a list.
pub proof fn destinations_come_from_every_file(
    disk: DiskView,
    path: Seq<char>,
    chain: Set<Seq<char>>,
    client: Seq<char>,
    key: Seq<char>,
    destination: Seq<char>,
)
    requires
        loading(disk, path, chain) is Complete,
        client != "include"@,
        forall|file: Seq<char>, n: nat| #[trigger]
            leads_to(disk, path, file, n) ==> is_list(document_of(disk, file), client, key),
    ensures
        is_list(loading(disk, path, chain)->Complete_0, client, key),
        lists(loading(disk, path, chain)->Complete_0, client, key, destination) <==> exists|
            file: Seq<char>,
            n: nat,
        | #[trigger]
            leads_to(disk, path, file, n) && lists(
                document_of(disk, file),
                client,
                key,
                destination,
            ),
{
    let ok = |t: TableView| is_list(t, client, key);
    let p = |t: TableView| lists(t, client, key, destination);
    assert(is_gathered(ok, p)) by {
        assert forall|a: TableView, b: TableView| ok(a) && ok(b) implies ok(#[trigger] merged(a, b))
            && (p(merged(a, b)) <==> p(a) || p(b)) by {
            lemma_merging_lists(a, b, client, key, destination);
        }
    }
    assert(every_document(disk, path, ok));
    lemma_gathered(disk, path, chain, ok, p);
    if some_document(disk, path, p) {
        let (file, n) = choose|file: Seq<char>, n: nat| #[trigger]
            leads_to(disk, path, file, n) && p(document_of(disk, file));
        assert(leads_to(disk, path, file, n) && lists(
            document_of(disk, file),
            client,
            key,
            destination,
        ));
    }
    if exists|file: Seq<char>, n: nat| #[trigger]
        leads_to(disk, path, file, n) && lists(
            document_of(disk, file),
            client,
            key,
            destination,
        ) {
        let (file, n) = choose|file: Seq<char>, n: nat| #[trigger]
            leads_to(disk, path, file, n) && lists(
                document_of(disk, file),
                client,
                key,
                destination,
            );
        assert(leads_to(disk, path, file, n) && p(document_of(disk, file)));
    }
}

/// The file holds a document, its includes are a list of names, and the path of each of them is
/// known and stands for a file.
pub open spec fn is_sound(disk: DiskView, file: Seq<char>) -> bool {
    &&& answer(disk.documents, file) matches Some(Ok(document)) && (document.contains_key(
        "include"@,
    ) ==> document["include"@] is Array)
    &&& forall|i: int|
        0 <= i < includes_of(disk, file).len() ==> is_placed(
            disk,
            file,
            #[trigger] includes_of(disk, file)[i],
        ) && file_at(disk, place(disk, file, includes_of(disk, file)[i])) is Some
}

/// The path leads to sound files only, to none that leads back to itself, and to none of `chain`.
pub open spec fn is_clear(disk: DiskView, path: Seq<char>, chain: Set<Seq<char>>) -> bool {
    &&& file_at(disk, path) is Some
    &&& forall|file: Seq<char>, n: nat| #[trigger]
        leads_to(disk, path, file, n) ==> is_sound(disk, file) && !chain.contains(file)
    &&& forall|file: Seq<char>, n: nat, m: nat|
        #![trigger leads_to(disk, path, file, n), included_leads_to(disk, file, file, m)]
        leads_to(disk, path, file, n) ==> !included_leads_to(disk, file, file, m)
}

/// Nothing else stands in the way: where every file that a path leads to can be read, has its
/// includes in order and does not lead back to itself, the map is loaded, however many files there
/// are and however deep they include each other.
pub proof fn maps_in_order_are_loaded(disk: DiskView, path: Seq<char>, chain: Set<Seq<char>>)
    requires
        is_clear(disk, path, chain),
    ensures
        loading(disk, path, chain) is Complete,
    decreases unopened(disk, chain).len(), 0nat,
{
    let file = file_at(disk, path)->0;
    assert(leads_to(disk, path, file, 0));
    assert(is_sound(disk, file));
    lemma_opening(disk, chain, file);
    let document = document_of(disk, file);
    let includes = includes_of(disk, file);
    if document.contains_key("include"@) {
        assert forall|i: int| 0 <= i < includes.len() implies is_placed(
            disk,
            file,
            #[trigger] includes[i],
        ) && is_clear(disk, place(disk, file, includes[i]), chain.insert(file)) by {
            let next = place(disk, file, includes[i]);
            assert(is_placed(disk, file, includes[i]) && file_at(disk, next) is Some);
            assert forall|target: Seq<char>, n: nat| #[trigger]
                leads_to(disk, next, target, n) implies is_sound(disk, target) && !chain.insert(
                file,
            ).contains(target) by {
                lemma_one_further(disk, path, file, i, target, n);
                if target == file {
                    assert(!included_leads_to(disk, file, file, n));
                }
            }
            assert forall|target: Seq<char>, n: nat, m: nat|
                #![trigger leads_to(disk, next, target, n), included_leads_to(disk, target, target, m)]
                leads_to(disk, next, target, n) implies !included_leads_to(
                disk,
                target,
                target,
                m,
            ) by {
                lemma_one_further(disk, path, file, i, target, n);
                assert(leads_to(disk, path, target, n + 1));
            }
        }
        lemma_includes_in_order(disk, file, includes, chain.insert(file));
    }
}

proof fn lemma_includes_in_order(
    disk: DiskView,
    file: Seq<char>,
    includes: Seq<Tree>,
    chain: Set<Seq<char>>,
)
    requires
        forall|i: int|
            0 <= i < includes.len() ==> is_placed(disk, file, #[trigger] includes[i]) && is_clear(
                disk,
                place(disk, file, includes[i]),
                chain,
            ),
    ensures
        including(disk, file, includes, chain) is Complete,
    decreases unopened(disk, chain).len(), includes.len(),
{
    if includes.len() > 0 {
        let fewer = includes.drop_last();
        assert forall|i: int| 0 <= i < fewer.len() implies is_placed(
            disk,
            file,
            #[trigger] fewer[i],
        ) && is_clear(disk, place(disk, file, fewer[i]), chain) by {
            assert(fewer[i] == includes[i]);
        }
        lemma_includes_in_order(disk, file, fewer, chain);
        let last = includes[includes.len() - 1];
        maps_in_order_are_loaded(disk, place(disk, file, last), chain);
    }
}

} // verus!
