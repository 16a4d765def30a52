//! Loading of the declarative connection map.
//!
//!   * a top-level `include = ["a.toml", ...]` array pulls in other files, resolved relative to
//!     the including file, merged *first* so the including file's own keys win on scalar
//!     conflicts;
//!   * same-key arrays are concatenated with order-preserving dedup (so a port listed in several
//!     files complements rather than overrides);
//!   * include cycles on the current path are rejected, but diamonds are fine.
//!
//! No file is opened here. What is known of the files stands in a [`Disk`], where each text is
//! parsed once; where loading needs to know more it says so, and is asked again once the answer has
//! been added.
use vstd::prelude::*;
use vstd::string::*;

use crate::document::{parse_table, toml_document};
use crate::merge::{merge_table, merged};
use crate::paths::{include_path, included_path, PathStyle};
use crate::text::{holds, texts};
use crate::value::{lemma_array_view, trees, ConfigValue, Table, TableView, Tree};

verus! {

/// An answer about a file: what was asked for, or why it cannot be had.
pub type AnswerView<T> = Result<T, Seq<char>>;

/// Answers about files, each with the path that it is about.
pub type AnswersView<T> = Seq<(Seq<char>, AnswerView<T>)>;

/// What is known of the files: how their names are put together, the paths of what they include
/// where only the host can tell, the canonical names of paths, and the documents that files hold.
///
/// A path is known by the including file and the name in its include list.
pub struct DiskView {
    pub style: PathStyle,
    pub paths: Seq<((Seq<char>, Seq<char>), Seq<char>)>,
    pub names: AnswersView<Seq<char>>,
    pub documents: AnswersView<TableView>,
}

/// What is known of the files.
pub struct Disk {
    style: PathStyle,
    paths: Vec<((String, String), String)>,
    names: Vec<(String, Result<String, String>)>,
    documents: Vec<(String, Result<Table, String>)>,
}

/// A loaded connection map and the canonical name of every file that it was built from.
pub struct Loaded {
    pub table: Table,
    pub sources: Vec<String>,
}

/// How far a map could be loaded.
pub enum Load {
    /// The path is needed that a name stands for in an include list of a file: the file with this
    /// canonical name, and the name.
    Join(String, String),
    /// The canonical name of this path is needed.
    Resolve(String),
    /// The text of the file with this canonical name is needed.
    Read(String),
    /// The map cannot be loaded.
    Failed(String),
    /// The map is loaded.
    Complete(Loaded),
}

/// What a [`Load`] says.
pub enum LoadView {
    Join(Seq<char>, Seq<char>),
    Resolve(Seq<char>),
    Read(Seq<char>),
    Failed(Seq<char>),
    Complete(TableView, Seq<Seq<char>>),
}

/// What an answer says.
pub open spec fn answer_view<T: View>(answer: Result<T, String>) -> AnswerView<T::V> {
    match answer {
        Ok(found) => Ok(found@),
        Err(why) => Err(why@),
    }
}

/// What a list of answers says.
pub open spec fn answer_views<T: View>(answers: Seq<(String, Result<T, String>)>) -> AnswersView<
    T::V,
> {
    answers.map_values(|e: (String, Result<T, String>)| (e.0@, answer_view(e.1)))
}

/// What a list of paths says.
pub open spec fn path_views(paths: Seq<((String, String), String)>) -> Seq<
    ((Seq<char>, Seq<char>), Seq<char>),
> {
    paths.map_values(|e: ((String, String), String)| ((e.0.0@, e.0.1@), e.1@))
}

/// The document that a file holds, given its text; why there is none, where it cannot be read or
/// is no TOML.
pub open spec fn document_read(text: AnswerView<Seq<char>>) -> AnswerView<TableView> {
    match text {
        Ok(text) => toml_document(text),
        Err(why) => Err(why),
    }
}

impl View for Disk {
    type V = DiskView;

    closed spec fn view(&self) -> DiskView {
        DiskView {
            style: self.style,
            paths: path_views(self.paths@),
            names: answer_views(self.names@),
            documents: answer_views(self.documents@),
        }
    }
}

impl View for Load {
    type V = LoadView;

    open spec fn view(&self) -> LoadView {
        match self {
            Load::Join(file, name) => LoadView::Join(file@, name@),
            Load::Resolve(path) => LoadView::Resolve(path@),
            Load::Read(file) => LoadView::Read(file@),
            Load::Failed(why) => LoadView::Failed(why@),
            Load::Complete(loaded) => LoadView::Complete(
                loaded.table@,
                texts(loaded.sources@),
            ),
        }
    }
}

/// The first answer that is about `key`.
pub open spec fn answer<K, A>(answers: Seq<(K, A)>, key: K) -> Option<A>
    decreases answers.len(),
{
    if answers.len() == 0 {
        None
    } else {
        match answer(answers.drop_last(), key) {
            Some(found) => Some(found),
            None => if answers.last().0 == key {
                Some(answers.last().1)
            } else {
                None
            },
        }
    }
}

/// The path that `name` stands for in an include list of `file`, where it is known.
pub open spec fn path_in(disk: DiskView, file: Seq<char>, name: Seq<char>) -> Option<Seq<char>> {
    match disk.style {
        PathStyle::Slashes => Some(included_path(file, name)),
        PathStyle::Host => answer(disk.paths, (file, name)),
    }
}

/// The paths that there are answers about.
pub open spec fn answered<T>(answers: AnswersView<T>) -> Seq<Seq<char>> {
    answers.map_values(|e: (Seq<char>, AnswerView<T>)| e.0)
}

/// The files whose documents are known and that are not in `chain`.
pub open spec fn unopened(disk: DiskView, chain: Set<Seq<char>>) -> Set<Seq<char>> {
    answered(disk.documents).to_set().difference(chain)
}

proof fn lemma_answered<T>(answers: AnswersView<T>, path: Seq<char>)
    requires
        answer(answers, path) is Some,
    ensures
        answered(answers).to_set().contains(path),
    decreases answers.len(),
{
    let paths = answered(answers);
    if answer(answers.drop_last(), path) is Some {
        lemma_answered(answers.drop_last(), path);
        let fewer = answered(answers.drop_last());
        let i = choose|i: int| 0 <= i < fewer.len() && fewer[i] == path;
        assert(paths[i] == path);
    } else {
        assert(paths[answers.len() - 1] == path);
    }
}

/// Opening a file leaves fewer of them unopened.
pub proof fn lemma_opening(disk: DiskView, chain: Set<Seq<char>>, file: Seq<char>)
    requires
        answer(disk.documents, file) is Some,
        !chain.contains(file),
    ensures
        unopened(disk, chain.insert(file)).len() < unopened(disk, chain).len(),
{
    lemma_answered(disk.documents, file);
    vstd::seq_lib::seq_to_set_is_finite(answered(disk.documents));
    assert(unopened(disk, chain.insert(file)) =~= unopened(disk, chain).remove(file));
}

/// What loading `path` comes to, where the files of `chain` are being loaded around it.
pub open spec fn loading(disk: DiskView, path: Seq<char>, chain: Set<Seq<char>>) -> LoadView
    decreases unopened(disk, chain).len(), 0nat,
{
    match answer(disk.names, path) {
        None => LoadView::Resolve(path),
        Some(Err(why)) => LoadView::Failed(path + ": "@ + why),
        Some(Ok(file)) => if chain.contains(file) {
            LoadView::Failed("circular include detected at "@ + file)
        } else {
            match answer(disk.documents, file) {
                None => LoadView::Read(file),
                Some(Err(why)) => LoadView::Failed(file + ": "@ + why),
                Some(Ok(document)) => {
                    proof {
                        lemma_opening(disk, chain, file);
                    }
                    opening(disk, file, document, chain.insert(file))
                },
            }
        },
    }
}

/// The number of includes that a document lists.
pub open spec fn include_count(document: TableView) -> nat {
    if document.contains_key("include"@) && document["include"@] is Array {
        document["include"@]->Array_0.len()
    } else {
        0
    }
}

/// What loading `file` comes to, which holds `document`: what it includes is
/// loaded first, and then the document's own entries are merged in. The files of `chain`, with
/// `file` among them, are being loaded around the includes.
pub open spec fn opening(
    disk: DiskView,
    file: Seq<char>,
    document: TableView,
    chain: Set<Seq<char>>,
) -> LoadView
    decreases unopened(disk, chain).len(), include_count(document) + 1,
{
    if !document.contains_key("include"@) {
        LoadView::Complete(document, seq![file])
    } else if document["include"@] is Array {
        match including(disk, file, document["include"@]->Array_0, chain) {
            LoadView::Complete(table, sources) => LoadView::Complete(
                merged(table, document.remove("include"@)),
                seq![file] + sources,
            ),
            other => other,
        }
    } else {
        LoadView::Failed("`include` in "@ + file + " must be an array"@)
    }
}

/// What loading the files that `file` includes comes to: they are merged in their order.
pub open spec fn including(
    disk: DiskView,
    file: Seq<char>,
    includes: Seq<Tree>,
    chain: Set<Seq<char>>,
) -> LoadView
    decreases unopened(disk, chain).len(), includes.len(),
{
    if includes.len() == 0 {
        LoadView::Complete(TableView::empty(), seq![])
    } else {
        match including(disk, file, includes.drop_last(), chain) {
            LoadView::Complete(table, sources) => if includes.last() is Text {
                let name = includes.last()->Text_0;
                match path_in(disk, file, name) {
                    None => LoadView::Join(file, name),
                    Some(path) => match loading(disk, path, chain) {
                        LoadView::Complete(more, more_sources) => LoadView::Complete(
                            merged(table, more),
                            sources + more_sources,
                        ),
                        other => other,
                    },
                }
            } else {
                LoadView::Failed("`include` in "@ + file + " must be path strings"@)
            },
            other => other,
        }
    }
}

impl Disk {
    /// Nothing is known yet but how the names of files are put together.
    pub fn new(style: PathStyle) -> (disk: Disk)
        ensures
            disk@ == (DiskView { style, paths: seq![], names: seq![], documents: seq![] }),
    {
        let disk = Disk { style, paths: Vec::new(), names: Vec::new(), documents: Vec::new() };
        assert(disk@.paths =~= seq![]);
        assert(disk@.names =~= seq![]);
        assert(disk@.documents =~= seq![]);
        disk
    }

    /// Adds the path that `name` stands for in an include list of `file`.
    pub fn add_path(&mut self, file: String, name: String, path: String)
        ensures
            final(self)@ == (DiskView {
                paths: old(self)@.paths.push(((file@, name@), path@)),
                ..old(self)@
            }),
    {
        self.paths.push(((file, name), path));
        assert(self@.paths =~= old(self)@.paths.push(((file@, name@), path@)));
    }

    /// Adds the canonical name of `path`, or why it has none.
    pub fn add_name(&mut self, path: String, name: Result<String, String>)
        ensures
            final(self)@ == (DiskView {
                names: old(self)@.names.push((path@, answer_view(name))),
                ..old(self)@
            }),
    {
        self.names.push((path, name));
        assert(self@.names =~= old(self)@.names.push((path@, answer_view(name))));
    }

    /// Adds the text of the file with the canonical name `file`, or why it cannot be read.
    pub fn add_text(&mut self, file: String, text: Result<String, String>)
        ensures
            final(self)@ == (DiskView {
                documents: old(self)@.documents.push((file@, document_read(answer_view(text)))),
                ..old(self)@
            }),
    {
        let document = match text {
            Ok(text) => parse_table(text.as_str()),
            Err(why) => Err(why),
        };
        assert(answer_view(document) == document_read(answer_view(text)));
        self.documents.push((file, document));
        assert(self@.documents =~= old(self)@.documents.push((file@, answer_view(document))));
    }
}

/// The first answer that is about `path`.
fn find_answer<'a, T: View>(answers: &'a Vec<(String, Result<T, String>)>, path: &String) -> (found:
    Option<&'a Result<T, String>>)
    ensures
        match found {
            Some(found) => answer(answer_views(answers@), path@) == Some(answer_view(*found)),
            None => answer(answer_views(answers@), path@) is None,
        },
{
    let ghost views = answer_views(answers@);
    let mut i: usize = 0;
    while i < answers.len()
        invariant
            i <= answers.len(),
            views == answer_views(answers@),
            answer(views.take(i as int), path@) is None,
        decreases answers.len() - i,
    {
        let ghost next = views.take(i + 1);
        assert(next.drop_last() =~= views.take(i as int));
        assert(next.last() == (answers@[i as int].0@, answer_view(answers@[i as int].1)));
        if answers[i].0 == *path {
            proof {
                lemma_first_answer_stays(views, path@, i + 1);
            }
            return Some(&answers[i].1);
        }
        i = i + 1;
    }
    assert(views.take(answers@.len() as int) =~= views);
    None
}

/// The first path that is about `name` in an include list of `file`.
fn find_path<'a>(paths: &'a Vec<((String, String), String)>, file: &String, name: &String) -> (found:
    Option<&'a String>)
    ensures
        match found {
            Some(path) => answer(path_views(paths@), (file@, name@)) == Some(path@),
            None => answer(path_views(paths@), (file@, name@)) is None,
        },
{
    let ghost views = path_views(paths@);
    let mut i: usize = 0;
    while i < paths.len()
        invariant
            i <= paths.len(),
            views == path_views(paths@),
            answer(views.take(i as int), (file@, name@)) is None,
        decreases paths.len() - i,
    {
        let ghost next = views.take(i + 1);
        let ((of, named), path) = &paths[i];
        assert(next.drop_last() =~= views.take(i as int));
        assert(next.last() == ((of@, named@), path@));
        if *of == *file && *named == *name {
            proof {
                lemma_first_answer_stays(views, (file@, name@), i + 1);
            }
            return Some(path);
        }
        i = i + 1;
    }
    assert(views.take(paths@.len() as int) =~= views);
    None
}

/// The path that `name` stands for in an include list of `file`, where it is known.
fn find_included(disk: &Disk, file: &String, name: &String) -> (path: Option<String>)
    ensures
        match path {
            Some(path) => path_in(disk@, file@, name@) == Some(path@),
            None => path_in(disk@, file@, name@) is None,
        },
{
    match disk.style {
        PathStyle::Slashes => Some(include_path(file.as_str(), name.as_str())),
        PathStyle::Host => match find_path(&disk.paths, file, name) {
            Some(path) => Some(path.clone()),
            None => None,
        },
    }
}

/// An answer that was given stays when others are added behind it.
proof fn lemma_first_answer_stays<K, A>(answers: Seq<(K, A)>, path: K, n: int)
    requires
        0 <= n <= answers.len(),
        answer(answers.take(n), path) is Some,
    ensures
        answer(answers, path) == answer(answers.take(n), path),
    decreases answers.len(),
{
    if n == answers.len() {
        assert(answers.take(n) =~= answers);
    } else {
        assert(answers.drop_last().take(n) =~= answers.take(n));
        lemma_first_answer_stays(answers.drop_last(), path, n);
    }
}

/// What loading `path` comes to, where the files of `chain` are being loaded around it.
fn load_file(disk: &Disk, path: String, chain: &Vec<String>) -> (load: Load)
    ensures
        load@ == loading(disk@, path@, texts(chain@).to_set()),
    decreases unopened(disk@, texts(chain@).to_set()).len(), 0nat,
{
    let file = match find_answer(&disk.names, &path) {
        None => {
            return Load::Resolve(path);
        },
        Some(Err(why)) => {
            return Load::Failed(path.concat(": ").concat(why.as_str()));
        },
        Some(Ok(file)) => file.clone(),
    };
    if holds(chain, &file) {
        return Load::Failed("circular include detected at ".to_string().concat(file.as_str()));
    }
    let ghost around = texts(chain@).to_set();
    let document = match find_answer(&disk.documents, &file) {
        None => {
            return Load::Read(file);
        },
        Some(Err(why)) => {
            return Load::Failed(file.concat(": ").concat(why.as_str()));
        },
        Some(Ok(document)) => document,
    };
    // A fresh chain per branch: cycles on the current path are blocked, while sibling and
    // diamond includes are still allowed.
    let mut next_chain = chain.clone();
    next_chain.push(file.clone());
    proof {
        lemma_opening(disk@, around, file@);
        assert(texts(next_chain@) =~= texts(chain@).push(file@));
        texts(chain@).lemma_push_to_set_commute(file@);
    }
    load_document(disk, file, document, &next_chain)
}

/// Loads what `document`, which `file` holds, includes, and merges its own entries in.
///
/// The files of `chain`, with `file` among them, are being loaded around the includes.
pub fn load_document(disk: &Disk, file: String, document: &Table, chain: &Vec<String>) -> (load: Load)
    ensures
        load@ == opening(disk@, file@, document@, texts(chain@).to_set()),
    decreases
            unopened(disk@, texts(chain@).to_set()).len(),
            include_count(document@) + 1,
{
    match document.get("include") {
        None => {
            let mut sources: Vec<String> = Vec::new();
            sources.push(file);
            assert(texts(sources@) =~= seq![file@]);
            Load::Complete(Loaded { table: document.copy(), sources })
        },
        Some(ConfigValue::Array(includes)) => {
            proof {
                lemma_array_view(ConfigValue::Array(*includes));
            }
            match load_includes(disk, &file, includes, chain) {
                Load::Complete(loaded) => {
                    let Loaded { table, sources: included } = loaded;
                    let mut own = document.copy();
                    own.remove("include");
                    let mut merged = table;
                    merge_table(&mut merged, own);
                    let mut sources: Vec<String> = Vec::new();
                    sources.push(file);
                    let ghost more = included@;
                    let mut included = included;
                    sources.append(&mut included);
                    assert(texts(sources@) =~= seq![file@] + texts(more));
                    Load::Complete(Loaded { table: merged, sources })
                },
                other => other,
            }
        },
        Some(_) => Load::Failed(
            "`include` in ".to_string().concat(file.as_str()).concat(" must be an array"),
        ),
    }
}

/// What loading the files that `file` includes comes to.
fn load_includes(disk: &Disk, file: &String, includes: &Vec<ConfigValue>, chain: &Vec<String>) -> (load:
    Load)
    ensures
        load@ == including(disk@, file@, trees(includes@), texts(chain@).to_set()),
    decreases unopened(disk@, texts(chain@).to_set()).len(), includes@.len(),
{
    let ghost all = trees(includes@);
    let ghost around = texts(chain@).to_set();
    let mut table = Table::new();
    let mut sources: Vec<String> = Vec::new();
    let mut i: usize = 0;
    assert(texts(sources@) =~= seq![]);
    assert(all.take(0) =~= seq![]);
    while i < includes.len()
        invariant
            i <= includes.len(),
            all == trees(includes@),
            around == texts(chain@).to_set(),
            including(disk@, file@, all.take(i as int), around) == LoadView::Complete(
                table@,
                texts(sources@),
            ),
        decreases includes.len() - i,
    {
        let ghost next = all.take(i + 1);
        proof {
            assert(next.drop_last() =~= all.take(i as int));
            assert(next.last() == includes@[i as int]@);
        }
        match &includes[i] {
            ConfigValue::Text(name) => {
                let path = match find_included(disk, file, name) {
                    Some(path) => path,
                    None => {
                        proof {
                            lemma_including_stops(disk@, file@, all, around, i + 1);
                        }
                        return Load::Join(file.clone(), name.clone());
                    },
                };
                match load_file(disk, path, chain) {
                    Load::Complete(loaded) => {
                        let Loaded { table: child, sources: included } = loaded;
                        let ghost before = sources@;
                        let ghost more = included@;
                        merge_table(&mut table, child);
                        let mut included = included;
                        sources.append(&mut included);
                        assert(texts(sources@) =~= texts(before) + texts(more));
                    },
                    other => {
                        proof {
                            lemma_including_stops(disk@, file@, all, around, i + 1);
                        }
                        return other;
                    },
                }
            },
            _ => {
                proof {
                    lemma_including_stops(disk@, file@, all, around, i + 1);
                }
                return Load::Failed(
                    "`include` in ".to_string().concat(file.as_str()).concat(
                        " must be path strings",
                    ),
                );
            },
        }
        i = i + 1;
    }
    assert(all.take(all.len() as int) =~= all);
    Load::Complete(Loaded { table, sources })
}

/// Where the first `n` includes cannot all be loaded, that is what loading comes to.
proof fn lemma_including_stops(
    disk: DiskView,
    file: Seq<char>,
    includes: Seq<Tree>,
    chain: Set<Seq<char>>,
    n: int,
)
    requires
        0 <= n <= includes.len(),
        !(including(disk, file, includes.take(n), chain) is Complete),
    ensures
        including(disk, file, includes, chain) == including(disk, file, includes.take(n), chain),
    decreases includes.len(),
{
    if n == includes.len() {
        assert(includes.take(n) =~= includes);
    } else {
        assert(includes.drop_last().take(n) =~= includes.take(n));
        lemma_including_stops(disk, file, includes.drop_last(), chain, n);
    }
}

/// Loads the map of the file at `path`, with what its `include` directives pull in.
pub fn load_config(disk: &Disk, path: &str) -> (load: Load)
    ensures
        load@ == loading(disk@, path@, Set::empty()),
{
    let chain: Vec<String> = Vec::new();
    assert(texts(chain@).to_set() =~= Set::empty());
    load_file(disk, path.to_string(), &chain)
}

} // verus!
