//! The walk of a whole tree, as the catalog sees it.
//!
//! A walk enters the directory it starts at, walks the sub-directories in the
//! order of the enumeration, each with the directory as its parent, and then
//! visits the directory's own files. `walked` is the catalog after all that,
//! for a tree of directories as the walker meets it and for whatever records
//! the catalog and the batcher make. The laws say that a walk keeps what the
//! catalog holds unique, and that a second walk of the same tree changes
//! nothing.

use crate::catalog::{
    entered, known_names, lemma_answer_held, lemma_answered,
    lemma_entering_keeps_directories_unique, lemma_extension_filter, lemma_name_asked,
    lemma_visit_keeps_documents_unique, told_apart, work_of, Catalog,
};
use crate::document::{DirectoryView, DocumentView};
use crate::walk::{is_known, is_markdown, Entry};
use vstd::prelude::*;

verus! {

/// A directory as the walker meets it, with the directories below it.
pub ghost struct Tree {
    /// The final segment of the path.
    pub name: Seq<char>,
    /// Canonicalised path.
    pub path: Seq<char>,
    /// What enumerating the directory gives.
    pub entries: Seq<Entry>,
    /// The sub-directories, in the order of the enumeration.
    pub below: Seq<Tree>,
}

/// The records that are made outside the walker's decisions: the one that the
/// catalog makes of a directory it is told to insert, and the one that the
/// batcher makes of a file.
pub ghost struct Makes {
    /// From the catalog so far and the name, parent and path to insert.
    pub directory: spec_fn(Catalog, Seq<char>, Option<uuid::Uuid>, Seq<char>) -> DirectoryView,
    /// From the directory's identifier and the file's entry.
    pub document: spec_fn(uuid::Uuid, Entry) -> DocumentView,
}

impl Makes {
    /// Whether a directory is recorded under the name and parent it was
    /// inserted with, and a file in the directory it was found in and under
    /// the name it was enumerated with.
    pub open spec fn faithful(self) -> bool {
        &&& forall|catalog: Catalog, name: Seq<char>, parent: Option<uuid::Uuid>, path: Seq<char>|
            (#[trigger] (self.directory)(catalog, name, parent, path)).name == name && (
            self.directory)(catalog, name, parent, path).parent == parent
        &&& forall|directory: uuid::Uuid, entry: Entry|
            entry.name is Some ==> (#[trigger] (self.document)(directory, entry)).directory
                == directory && (self.document)(directory, entry).file_name == entry.name->0@
    }
}

/// Whether every Markdown file in the tree has a UTF-8 name.
pub open spec fn named(tree: Tree) -> bool
    decreases tree,
{
    &&& forall|i: int|
        0 <= i < tree.entries.len() && is_markdown(#[trigger] tree.entries[i])
            ==> tree.entries[i].name is Some
    &&& forall|k: int| 0 <= k < tree.below.len() ==> named(#[trigger] tree.below[k])
}

/// Whether, in every directory of the tree, the names of the Markdown files
/// tell them apart.
pub open spec fn told_apart_throughout(tree: Tree) -> bool
    decreases tree,
{
    &&& told_apart(tree.entries)
    &&& forall|k: int| 0 <= k < tree.below.len() ==> told_apart_throughout(#[trigger] tree.below[k])
}

/// The documents made of the files of a visit's work.
pub open spec fn documents_for(work: Seq<Entry>, directory: uuid::Uuid, makes: Makes) -> Seq<
    DocumentView,
> {
    work.map_values(|e: Entry| (makes.document)(directory, e))
}

/// The catalog after the visit of a directory's own files: with the documents
/// made of the Markdown files that it did not know.
pub open spec fn visited(
    catalog: Catalog,
    directory: uuid::Uuid,
    entries: Seq<Entry>,
    makes: Makes,
) -> Catalog {
    catalog.insert_documents(
        documents_for(work_of(catalog, directory, entries), directory, makes),
    )
}

/// The catalog after the walk of a tree that is found under `parent`.
pub open spec fn walked(
    catalog: Catalog,
    tree: Tree,
    parent: Option<uuid::Uuid>,
    makes: Makes,
) -> Catalog
    decreases tree, 1nat, 0nat,
{
    let with_directory = entered(
        catalog,
        tree.name,
        parent,
        (makes.directory)(catalog, tree.name, parent, tree.path),
    );
    match with_directory.find_directory(tree.name, parent) {
        Some(directory) => visited(
            walked_below(with_directory, tree, tree.below.len(), directory.id, makes),
            directory.id,
            tree.entries,
            makes,
        ),
        None => with_directory,
    }
}

/// The catalog after the walk of the first `count` sub-directories of a tree
/// whose own record bears the identifier `parent`.
pub open spec fn walked_below(
    catalog: Catalog,
    tree: Tree,
    count: nat,
    parent: uuid::Uuid,
    makes: Makes,
) -> Catalog
    decreases tree, 0nat, count,
{
    if count == 0 || count > tree.below.len() {
        catalog
    } else {
        walked(
            walked_below(catalog, tree, (count - 1) as nat, parent, makes),
            tree.below[count - 1],
            Some(parent),
            makes,
        )
    }
}

/// A lookup finds what it found before, in a catalog that holds more and
/// keeps its directories unique.
proof fn lemma_lookup_stays(
    earlier: Catalog,
    later: Catalog,
    name: Seq<char>,
    parent: Option<uuid::Uuid>,
)
    requires
        later.extends(earlier),
        later.directories_unique(),
        earlier.holds_directory(name, parent),
    ensures
        later.find_directory(name, parent) == earlier.find_directory(name, parent),
        later.holds_directory(name, parent),
{
    let i = choose|i: int|
        0 <= i < earlier.directories.len() && (#[trigger] earlier.directories[i]).name == name
            && earlier.directories[i].parent == parent;
    assert(later.directories[i] == earlier.directories[i]);
    let j = choose|j: int|
        0 <= j < later.directories.len() && (#[trigger] later.directories[j]).name == name
            && later.directories[j].parent == parent;
    if i < j {
        assert(!(later.directories[i].name == later.directories[j].name
            && later.directories[i].parent == later.directories[j].parent));
    }
    if j < i {
        assert(!(later.directories[j].name == later.directories[i].name
            && later.directories[j].parent == later.directories[i].parent));
    }
}

/// Uniqueness throughout a walk. A walk only adds to the catalog and leaves
/// it holding the directory that it started at. It keeps the directories
/// unique by name and parent. Where every Markdown file has a UTF-8 name and
/// the names tell the files of each directory apart, it keeps the documents
/// unique by directory and file name.
pub proof fn lemma_walk_keeps_unique(
    catalog: Catalog,
    tree: Tree,
    parent: Option<uuid::Uuid>,
    makes: Makes,
)
    requires
        catalog.directories_unique(),
        makes.faithful(),
    ensures
        walked(catalog, tree, parent, makes).extends(catalog),
        walked(catalog, tree, parent, makes).directories_unique(),
        walked(catalog, tree, parent, makes).holds_directory(tree.name, parent),
        catalog.documents_unique() && named(tree) && told_apart_throughout(tree) ==> walked(
            catalog,
            tree,
            parent,
            makes,
        ).documents_unique(),
    decreases tree, 1nat, 0nat,
{
    let inserted = (makes.directory)(catalog, tree.name, parent, tree.path);
    let with_directory = entered(catalog, tree.name, parent, inserted);
    lemma_entering_keeps_directories_unique(catalog, tree.name, parent, inserted, inserted);
    let directory = with_directory.find_directory(tree.name, parent)->0;
    let below = walked_below(with_directory, tree, tree.below.len(), directory.id, makes);
    lemma_walk_below_keeps_unique(with_directory, tree, tree.below.len(), directory.id, makes);
    lemma_lookup_stays(with_directory, below, tree.name, parent);
    let after = visited(below, directory.id, tree.entries, makes);
    if catalog.documents_unique() && named(tree) && told_apart_throughout(tree) {
        let work = work_of(below, directory.id, tree.entries);
        lemma_work_named(below, directory.id, tree.entries);
        lemma_visit_keeps_documents_unique(
            below,
            directory.id,
            tree.entries,
            documents_for(work, directory.id, makes),
        );
    }
    assert(after.holds_directory(tree.name, parent)) by {
        let i = choose|i: int|
            0 <= i < below.directories.len() && (#[trigger] below.directories[i]).name
                == tree.name && below.directories[i].parent == parent;
        assert(after.directories[i] == below.directories[i]);
    }
}

/// The same of the walk of a tree's first sub-directories.
proof fn lemma_walk_below_keeps_unique(
    catalog: Catalog,
    tree: Tree,
    count: nat,
    parent: uuid::Uuid,
    makes: Makes,
)
    requires
        catalog.directories_unique(),
        makes.faithful(),
    ensures
        walked_below(catalog, tree, count, parent, makes).extends(catalog),
        walked_below(catalog, tree, count, parent, makes).directories_unique(),
        catalog.documents_unique() && named(tree) && told_apart_throughout(tree) ==> walked_below(
            catalog,
            tree,
            count,
            parent,
            makes,
        ).documents_unique(),
    decreases tree, 0nat, count,
{
    if !(count == 0 || count > tree.below.len()) {
        let before = walked_below(catalog, tree, (count - 1) as nat, parent, makes);
        lemma_walk_below_keeps_unique(catalog, tree, (count - 1) as nat, parent, makes);
        lemma_walk_keeps_unique(before, tree.below[count - 1], Some(parent), makes);
    }
}

/// Where every Markdown file has a UTF-8 name, the documents made of a
/// visit's work are in the visited directory and bear the files' names.
proof fn lemma_work_named(catalog: Catalog, directory: uuid::Uuid, entries: Seq<Entry>)
    requires
        forall|i: int|
            0 <= i < entries.len() && is_markdown(#[trigger] entries[i]) ==> entries[i].name is Some,
    ensures
        forall|k: int|
            0 <= k < work_of(catalog, directory, entries).len() ==> (#[trigger] work_of(
                catalog,
                directory,
                entries,
            )[k]).name is Some,
{
    let work = work_of(catalog, directory, entries);
    assert forall|k: int| 0 <= k < work.len() implies (#[trigger] work[k]).name is Some by {
        assert(work.contains(work[k]));
        lemma_extension_filter(entries, known_names(catalog, directory, entries));
        let at = choose|at: int| 0 <= at < entries.len() && entries[at] == work[k];
    }
}

/// Whether the catalog holds all that a walk of the tree under `parent`
/// enters: the directory, a document for each of its Markdown files, and the
/// same of every tree below, under the directory.
pub open spec fn settled(catalog: Catalog, tree: Tree, parent: Option<uuid::Uuid>) -> bool
    decreases tree,
{
    match catalog.find_directory(tree.name, parent) {
        None => false,
        Some(directory) => {
            &&& forall|i: int|
                0 <= i < tree.entries.len() && is_markdown(#[trigger] tree.entries[i])
                    ==> tree.entries[i].name is Some && catalog.holds_document(
                    directory.id,
                    tree.entries[i].name->0@,
                )
            &&& forall|k: int|
                0 <= k < tree.below.len() ==> settled(
                    catalog,
                    #[trigger] tree.below[k],
                    Some(directory.id),
                )
        },
    }
}

/// A document that is held stays held in a catalog that holds more.
proof fn lemma_document_stays(
    earlier: Catalog,
    later: Catalog,
    directory: uuid::Uuid,
    file_name: Seq<char>,
)
    requires
        later.extends(earlier),
        earlier.holds_document(directory, file_name),
    ensures
        later.holds_document(directory, file_name),
{
    let i = choose|i: int|
        0 <= i < earlier.documents.len() && (#[trigger] earlier.documents[i]).directory
            == directory && earlier.documents[i].file_name == file_name;
    assert(later.documents[i] == earlier.documents[i]);
}

/// What is settled stays settled in a catalog that holds more and keeps its
/// directories unique.
pub proof fn lemma_settled_stays(
    earlier: Catalog,
    later: Catalog,
    tree: Tree,
    parent: Option<uuid::Uuid>,
)
    requires
        later.extends(earlier),
        later.directories_unique(),
        settled(earlier, tree, parent),
    ensures
        settled(later, tree, parent),
    decreases tree,
{
    lemma_lookup_stays(earlier, later, tree.name, parent);
    let directory = earlier.find_directory(tree.name, parent)->0;
    assert forall|i: int|
        0 <= i < tree.entries.len() && is_markdown(
            #[trigger] tree.entries[i],
        ) implies tree.entries[i].name is Some && later.holds_document(
        directory.id,
        tree.entries[i].name->0@,
    ) by {
        lemma_document_stays(earlier, later, directory.id, tree.entries[i].name->0@);
    }
    assert forall|k: int| 0 <= k < tree.below.len() implies settled(
        later,
        #[trigger] tree.below[k],
        Some(directory.id),
    ) by {
        lemma_settled_stays(earlier, later, tree.below[k], Some(directory.id));
    }
}

/// Where a document is held for each Markdown file, a visit has no work.
proof fn lemma_no_work(catalog: Catalog, directory: uuid::Uuid, entries: Seq<Entry>)
    requires
        forall|i: int|
            0 <= i < entries.len() && is_markdown(#[trigger] entries[i]) ==> entries[i].name is Some
                && catalog.holds_document(directory, entries[i].name->0@),
    ensures
        work_of(catalog, directory, entries).len() == 0,
{
    let known = known_names(catalog, directory, entries);
    let unknown = |e: Entry| is_markdown(e) && !is_known(e, known);
    assert forall|at: int| 0 <= at < entries.len() implies !unknown(#[trigger] entries[at]) by {
        let file = entries[at];
        if is_markdown(file) {
            let name = file.name->0@;
            let d = choose|d: int|
                0 <= d < catalog.documents.len() && (#[trigger] catalog.documents[d]).directory
                    == directory && catalog.documents[d].file_name == name;
            lemma_name_asked(entries, at);
            lemma_answered(catalog, directory, entries, d);
        }
    }
    assert(entries.all(|e: Entry| !unknown(e)));
    entries.lemma_all_neg_filter_empty(unknown);
}

/// The walk of a settled tree changes nothing.
pub proof fn lemma_settled_walk_changes_nothing(
    catalog: Catalog,
    tree: Tree,
    parent: Option<uuid::Uuid>,
    makes: Makes,
)
    requires
        settled(catalog, tree, parent),
    ensures
        walked(catalog, tree, parent, makes) == catalog,
    decreases tree, 1nat, 0nat,
{
    let directory = catalog.find_directory(tree.name, parent)->0;
    lemma_settled_below_changes_nothing(catalog, tree, tree.below.len(), directory.id, makes);
    lemma_no_work(catalog, directory.id, tree.entries);
    let after = visited(catalog, directory.id, tree.entries, makes);
    assert(after.documents =~= catalog.documents);
}

/// The walk of settled sub-directories changes nothing.
proof fn lemma_settled_below_changes_nothing(
    catalog: Catalog,
    tree: Tree,
    count: nat,
    parent: uuid::Uuid,
    makes: Makes,
)
    requires
        forall|k: int|
            0 <= k < tree.below.len() ==> settled(catalog, #[trigger] tree.below[k], Some(parent)),
    ensures
        walked_below(catalog, tree, count, parent, makes) == catalog,
    decreases tree, 0nat, count,
{
    if !(count == 0 || count > tree.below.len()) {
        lemma_settled_below_changes_nothing(catalog, tree, (count - 1) as nat, parent, makes);
        lemma_settled_walk_changes_nothing(catalog, tree.below[count - 1], Some(parent), makes);
    }
}

/// A walk settles its tree, where every Markdown file has a UTF-8 name.
pub proof fn lemma_walk_settles(
    catalog: Catalog,
    tree: Tree,
    parent: Option<uuid::Uuid>,
    makes: Makes,
)
    requires
        catalog.directories_unique(),
        makes.faithful(),
        named(tree),
    ensures
        settled(walked(catalog, tree, parent, makes), tree, parent),
    decreases tree, 1nat, 0nat,
{
    let inserted = (makes.directory)(catalog, tree.name, parent, tree.path);
    let with_directory = entered(catalog, tree.name, parent, inserted);
    lemma_entering_keeps_directories_unique(catalog, tree.name, parent, inserted, inserted);
    let directory = with_directory.find_directory(tree.name, parent)->0;
    let below = walked_below(with_directory, tree, tree.below.len(), directory.id, makes);
    lemma_walk_below_keeps_unique(with_directory, tree, tree.below.len(), directory.id, makes);
    lemma_walk_below_settles(with_directory, tree, tree.below.len(), directory.id, makes);
    lemma_lookup_stays(with_directory, below, tree.name, parent);
    let after = visited(below, directory.id, tree.entries, makes);
    lemma_lookup_stays(below, after, tree.name, parent);
    let known = known_names(below, directory.id, tree.entries);
    let unknown = |e: Entry| is_markdown(e) && !is_known(e, known);
    let work = work_of(below, directory.id, tree.entries);
    let held = below.documents.len() as int;
    assert forall|i: int|
        0 <= i < tree.entries.len() && is_markdown(
            #[trigger] tree.entries[i],
        ) implies tree.entries[i].name is Some && after.holds_document(
        directory.id,
        tree.entries[i].name->0@,
    ) by {
        let file = tree.entries[i];
        if is_known(file, known) {
            let d = lemma_answer_held(below, directory.id, tree.entries, file.name->0@);
            assert(after.documents[d] == below.documents[d]);
        } else {
            tree.entries.lemma_filter_contains(unknown, i);
            let k = choose|k: int| 0 <= k < work.len() && work[k] == file;
            assert(after.documents[held + k] == (makes.document)(directory.id, file));
        }
    }
    assert forall|k: int| 0 <= k < tree.below.len() implies settled(
        after,
        #[trigger] tree.below[k],
        Some(directory.id),
    ) by {
        lemma_settled_stays(below, after, tree.below[k], Some(directory.id));
    }
}

/// The walk of a tree's first sub-directories settles them.
proof fn lemma_walk_below_settles(
    catalog: Catalog,
    tree: Tree,
    count: nat,
    parent: uuid::Uuid,
    makes: Makes,
)
    requires
        catalog.directories_unique(),
        makes.faithful(),
        named(tree),
        count <= tree.below.len(),
    ensures
        forall|k: int|
            0 <= k < count ==> settled(
                walked_below(catalog, tree, count, parent, makes),
                #[trigger] tree.below[k],
                Some(parent),
            ),
    decreases tree, 0nat, count,
{
    if count > 0 {
        let before = walked_below(catalog, tree, (count - 1) as nat, parent, makes);
        let after = walked_below(catalog, tree, count, parent, makes);
        lemma_walk_below_keeps_unique(catalog, tree, (count - 1) as nat, parent, makes);
        lemma_walk_below_settles(catalog, tree, (count - 1) as nat, parent, makes);
        lemma_walk_keeps_unique(before, tree.below[count - 1], Some(parent), makes);
        lemma_walk_settles(before, tree.below[count - 1], Some(parent), makes);
        assert forall|k: int| 0 <= k < count implies settled(
            after,
            #[trigger] tree.below[k],
            Some(parent),
        ) by {
            if k < count - 1 {
                lemma_settled_stays(before, after, tree.below[k], Some(parent));
            }
        }
    }
}

/// Idempotence of ingestion. After the walk of a tree, and for as long as the
/// catalog goes on holding what it held then and keeps its directories
/// unique, another walk of the same tree enters nothing: the catalog after it
/// is the catalog before it. This holds where every Markdown file of the tree
/// has a UTF-8 name, under which its document is made.
pub proof fn lemma_second_walk_changes_nothing(
    catalog: Catalog,
    tree: Tree,
    parent: Option<uuid::Uuid>,
    makes: Makes,
    later: Catalog,
    again: Makes,
)
    requires
        catalog.directories_unique(),
        makes.faithful(),
        named(tree),
        later.extends(walked(catalog, tree, parent, makes)),
        later.directories_unique(),
    ensures
        walked(later, tree, parent, again) == later,
        walked(walked(catalog, tree, parent, makes), tree, parent, again) == walked(
            catalog,
            tree,
            parent,
            makes,
        ),
{
    let once = walked(catalog, tree, parent, makes);
    lemma_walk_keeps_unique(catalog, tree, parent, makes);
    lemma_walk_settles(catalog, tree, parent, makes);
    lemma_settled_stays(once, later, tree, parent);
    lemma_settled_walk_changes_nothing(later, tree, parent, again);
    lemma_settled_walk_changes_nothing(once, tree, parent, again);
}

} // verus!
