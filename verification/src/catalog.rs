//! What the walker's decisions guarantee of the catalog.
//!
//! The catalog itself is a store elsewhere. `Catalog` is what it holds, seen
//! from here: a sequence of directories and a sequence of documents, with the
//! lookups that the walker asks for. The laws below say what holds of that
//! content when the walker's decisions are carried out on it: nothing is
//! entered twice, and a second visit enters nothing.

use crate::document::{DirectoryView, Document, DocumentView};
use crate::walk::{
    document_names, file_names_of, is_known, is_markdown, markdown_of, unknown_of, Entry,
};
use vstd::prelude::*;

verus! {

/// The content of the catalog.
pub ghost struct Catalog {
    pub directories: Seq<DirectoryView>,
    pub documents: Seq<DocumentView>,
}

impl Catalog {
    /// No two directories share name and parent. Roots have no parent, so no
    /// two roots share a name.
    pub open spec fn directories_unique(self) -> bool {
        forall|i: int, j: int|
            #![trigger self.directories[i], self.directories[j]]
            0 <= i < j < self.directories.len() ==> !(self.directories[i].name
                == self.directories[j].name && self.directories[i].parent
                == self.directories[j].parent)
    }

    /// No two documents share directory and file name.
    pub open spec fn documents_unique(self) -> bool {
        forall|i: int, j: int|
            #![trigger self.documents[i], self.documents[j]]
            0 <= i < j < self.documents.len() ==> !(self.documents[i].directory
                == self.documents[j].directory && self.documents[i].file_name
                == self.documents[j].file_name)
    }

    /// Whether a directory of this name is held under this parent, or among
    /// the roots where `parent` is `None`.
    pub open spec fn holds_directory(self, name: Seq<char>, parent: Option<uuid::Uuid>) -> bool {
        exists|i: int|
            0 <= i < self.directories.len() && (#[trigger] self.directories[i]).name == name
                && self.directories[i].parent == parent
    }

    /// The directory of this name under this parent, if one is held: what
    /// the catalog answers to the lookup of a directory.
    pub open spec fn find_directory(self, name: Seq<char>, parent: Option<uuid::Uuid>) -> Option<
        DirectoryView,
    > {
        if self.holds_directory(name, parent) {
            Some(
                self.directories[choose|i: int|
                    0 <= i < self.directories.len() && (#[trigger] self.directories[i]).name
                        == name && self.directories[i].parent == parent],
            )
        } else {
            None
        }
    }

    /// Whether a document of this file name is held in this directory.
    pub open spec fn holds_document(self, directory: uuid::Uuid, file_name: Seq<char>) -> bool {
        exists|i: int|
            0 <= i < self.documents.len() && (#[trigger] self.documents[i]).directory
                == directory && self.documents[i].file_name == file_name
    }

    /// Whether this catalog is `earlier` with more entered after it.
    pub open spec fn extends(self, earlier: Catalog) -> bool {
        &&& earlier.directories.len() <= self.directories.len()
        &&& earlier.documents.len() <= self.documents.len()
        &&& forall|i: int|
            0 <= i < earlier.directories.len() ==> self.directories[i]
                == #[trigger] earlier.directories[i]
        &&& forall|i: int|
            0 <= i < earlier.documents.len() ==> self.documents[i]
                == #[trigger] earlier.documents[i]
    }

    /// The catalog with one more directory.
    pub open spec fn insert_directory(self, directory: DirectoryView) -> Catalog {
        Catalog { directories: self.directories.push(directory), documents: self.documents }
    }

    /// The documents of `directory` that bear one of the given file names.
    pub open spec fn list_documents(self, directory: uuid::Uuid, file_names: Seq<Seq<char>>) -> Seq<
        DocumentView,
    > {
        self.documents.filter(
            |d: DocumentView| d.directory == directory && file_names.contains(d.file_name),
        )
    }

    /// The catalog with the given documents inserted one after the other.
    pub open spec fn insert_documents(self, documents: Seq<DocumentView>) -> Catalog {
        Catalog { directories: self.directories, documents: self.documents + documents }
    }
}

/// The catalog once the walker has dealt with an arriving directory of this
/// name under this parent: as it was where the lookup finds the directory, and
/// with the inserted record where it does not.
pub open spec fn entered(
    catalog: Catalog,
    name: Seq<char>,
    parent: Option<uuid::Uuid>,
    inserted: DirectoryView,
) -> Catalog {
    if catalog.holds_directory(name, parent) {
        catalog
    } else {
        catalog.insert_directory(inserted)
    }
}

/// The file names that the catalog answers with when a visit asks about the
/// Markdown files among `entries`.
pub open spec fn known_names(catalog: Catalog, directory: uuid::Uuid, entries: Seq<Entry>) -> Seq<
    Seq<char>,
> {
    catalog.list_documents(directory, file_names_of(entries)).map_values(
        |d: DocumentView| d.file_name,
    )
}

/// The files that a visit of `directory` hands to the batcher.
pub open spec fn work_of(catalog: Catalog, directory: uuid::Uuid, entries: Seq<Entry>) -> Seq<
    Entry,
> {
    unknown_of(entries, known_names(catalog, directory, entries))
}

/// What `Visit::work` leaves of the entries is the work of the visit, where
/// the documents it is given are the catalog's answer to the file names of
/// `Visit::file_names`.
pub proof fn lemma_work_of_answer(
    catalog: Catalog,
    directory: uuid::Uuid,
    entries: Seq<Entry>,
    existing: Seq<Document>,
)
    requires
        existing.map_values(|d: Document| d@) == catalog.list_documents(
            directory,
            file_names_of(entries),
        ),
    ensures
        unknown_of(entries, document_names(existing)) == work_of(catalog, directory, entries),
{
    let listed = catalog.list_documents(directory, file_names_of(entries));
    assert(document_names(existing) =~= known_names(catalog, directory, entries)) by {
        assert forall|i: int| 0 <= i < existing.len() implies document_names(existing)[i]
            == known_names(catalog, directory, entries)[i] by {
            assert(existing.map_values(|d: Document| d@)[i] == listed[i]);
        }
    }
}

/// Whether `records` are the documents made from `work`: one for each file,
/// in `directory`, under the file's name.
pub open spec fn records_of(work: Seq<Entry>, directory: uuid::Uuid, records: Seq<DocumentView>) -> bool {
    &&& records.len() == work.len()
    &&& forall|k: int|
        0 <= k < work.len() ==> (#[trigger] records[k]).directory == directory
            && work[k].name is Some && records[k].file_name == work[k].name->0@
}

/// Whether the names of the Markdown files among `entries` tell them apart,
/// as the names of the files of one directory do.
pub open spec fn told_apart(entries: Seq<Entry>) -> bool {
    forall|i: int, j: int|
        #![trigger entries[i], entries[j]]
        0 <= i < j < entries.len() && is_markdown(entries[i]) && is_markdown(entries[j])
            && entries[i].name is Some && entries[j].name is Some ==> entries[i].name->0@
            != entries[j].name->0@
}

/// What a filter kept was there before, and in the same order.
proof fn lemma_filter_origin<A>(s: Seq<A>, keep: spec_fn(A) -> bool, i: int, j: int) -> (at: (
    int,
    int,
))
    requires
        0 <= i <= j < s.filter(keep).len(),
    ensures
        0 <= at.0 <= at.1 < s.len(),
        i < j ==> at.0 < at.1,
        s[at.0] == s.filter(keep)[i],
        s[at.1] == s.filter(keep)[j],
        keep(s[at.0]),
        keep(s[at.1]),
    decreases s.len(),
{
    reveal(Seq::filter);
    let rest = s.drop_last();
    let kept = rest.filter(keep);
    if keep(s.last()) && j == kept.len() {
        if i == j {
            (s.len() - 1, s.len() - 1)
        } else {
            let at = lemma_filter_origin(rest, keep, i, i);
            (at.0, s.len() - 1)
        }
    } else {
        lemma_filter_origin(rest, keep, i, j)
    }
}

/// A Markdown file with a name is among those the catalog is asked about.
pub proof fn lemma_name_asked(entries: Seq<Entry>, at: int)
    requires
        0 <= at < entries.len(),
        is_markdown(entries[at]),
        entries[at].name is Some,
    ensures
        file_names_of(entries).contains(entries[at].name->0@),
{
    let named = |e: Entry| is_markdown(e) && e.name is Some;
    entries.lemma_filter_contains(named, at);
    let kept = entries.filter(named);
    let k = choose|k: int| 0 <= k < kept.len() && kept[k] == entries[at];
    assert(file_names_of(entries)[k] == entries[at].name->0@);
}

/// A document of the directory under a name that was asked about is in the
/// catalog's answer.
pub proof fn lemma_answered(catalog: Catalog, directory: uuid::Uuid, entries: Seq<Entry>, at: int)
    requires
        0 <= at < catalog.documents.len(),
        catalog.documents[at].directory == directory,
        file_names_of(entries).contains(catalog.documents[at].file_name),
    ensures
        known_names(catalog, directory, entries).contains(catalog.documents[at].file_name),
{
    let names = file_names_of(entries);
    let asked = |d: DocumentView| d.directory == directory && names.contains(d.file_name);
    catalog.documents.lemma_filter_contains(asked, at);
    let listed = catalog.list_documents(directory, names);
    let k = choose|k: int| 0 <= k < listed.len() && listed[k] == catalog.documents[at];
    assert(known_names(catalog, directory, entries)[k] == catalog.documents[at].file_name);
}

/// A name in the catalog's answer is the name of a document of the
/// directory.
pub proof fn lemma_answer_held(catalog: Catalog, directory: uuid::Uuid, entries: Seq<Entry>, name: Seq<char>) -> (at: int)
    requires
        known_names(catalog, directory, entries).contains(name),
    ensures
        0 <= at < catalog.documents.len(),
        catalog.documents[at].directory == directory,
        catalog.documents[at].file_name == name,
        file_names_of(entries).contains(name),
{
    let names = file_names_of(entries);
    let asked = |d: DocumentView| d.directory == directory && names.contains(d.file_name);
    let listed = catalog.list_documents(directory, names);
    let known = known_names(catalog, directory, entries);
    let k = choose|k: int| 0 <= k < known.len() && known[k] == name;
    assert(listed[k].file_name == name);
    let at = lemma_filter_origin(catalog.documents, asked, k, k);
    at.0
}

/// Directory-tree uniqueness. Entering a directory only adds to the catalog
/// and keeps the directories unique by name and parent, whatever record the
/// catalog makes for it under that name and parent; afterwards the catalog
/// holds the directory, so that entering it once more inserts nothing.
pub proof fn lemma_entering_keeps_directories_unique(
    catalog: Catalog,
    name: Seq<char>,
    parent: Option<uuid::Uuid>,
    inserted: DirectoryView,
    again: DirectoryView,
)
    requires
        catalog.directories_unique(),
        inserted.name == name,
        inserted.parent == parent,
    ensures
        entered(catalog, name, parent, inserted).extends(catalog),
        entered(catalog, name, parent, inserted).documents == catalog.documents,
        entered(catalog, name, parent, inserted).directories_unique(),
        entered(catalog, name, parent, inserted).holds_directory(name, parent),
        entered(entered(catalog, name, parent, inserted), name, parent, again) == entered(
            catalog,
            name,
            parent,
            inserted,
        ),
{
    let after = entered(catalog, name, parent, inserted);
    if !catalog.holds_directory(name, parent) {
        assert(after.directories[catalog.directories.len() as int] == inserted);
        assert forall|i: int, j: int|
            #![trigger after.directories[i], after.directories[j]]
            0 <= i < j < after.directories.len() implies !(after.directories[i].name
            == after.directories[j].name && after.directories[i].parent
            == after.directories[j].parent) by {
            if j < catalog.directories.len() {
                assert(after.directories[i] == catalog.directories[i]);
                assert(after.directories[j] == catalog.directories[j]);
            } else {
                assert(after.directories[i] == catalog.directories[i]);
            }
        }
    }
}

/// Extension filter. The files that a visit hands on are the entries with
/// the Markdown extension whose name the catalog did not answer with, and no
/// others; the names that the catalog is asked about are the names of the
/// entries with the Markdown extension, and no others.
pub proof fn lemma_extension_filter(entries: Seq<Entry>, known: Seq<Seq<char>>)
    ensures
        forall|e: Entry| #[trigger]
            unknown_of(entries, known).contains(e) <==> entries.contains(e) && is_markdown(e)
                && !is_known(e, known),
        forall|e: Entry| #[trigger]
            markdown_of(entries).contains(e) <==> entries.contains(e) && is_markdown(e),
        forall|name: Seq<char>| #[trigger]
            file_names_of(entries).contains(name) <==> exists|e: Entry| #[trigger]
                entries.contains(e) && is_markdown(e) && e.name is Some && e.name->0@ == name,
{
    let unknown = |e: Entry| is_markdown(e) && !is_known(e, known);
    let markdown = |e: Entry| is_markdown(e);
    let named = |e: Entry| is_markdown(e) && e.name is Some;
    assert forall|e: Entry| #[trigger]
        unknown_of(entries, known).contains(e) <==> entries.contains(e) && unknown(e) by {
        lemma_filter_members(entries, unknown, e);
    }
    assert forall|e: Entry| #[trigger]
        markdown_of(entries).contains(e) <==> entries.contains(e) && markdown(e) by {
        lemma_filter_members(entries, markdown, e);
    }
    assert forall|name: Seq<char>| #[trigger]
        file_names_of(entries).contains(name) <==> exists|e: Entry| #[trigger]
            entries.contains(e) && is_markdown(e) && e.name is Some && e.name->0@ == name by {
        let names = file_names_of(entries);
        if names.contains(name) {
            let k = choose|k: int| 0 <= k < names.len() && names[k] == name;
            let at = lemma_filter_origin(entries, named, k, k);
            let e = entries[at.0];
            assert(entries.contains(e) && is_markdown(e) && e.name is Some && e.name->0@ == name);
        }
        if exists|e: Entry| #[trigger]
            entries.contains(e) && is_markdown(e) && e.name is Some && e.name->0@ == name {
            let e = choose|e: Entry| #[trigger]
                entries.contains(e) && is_markdown(e) && e.name is Some && e.name->0@ == name;
            let at = choose|at: int| 0 <= at < entries.len() && entries[at] == e;
            lemma_name_asked(entries, at);
        }
    }
}

/// A filter keeps exactly the elements that pass.
proof fn lemma_filter_members<A>(s: Seq<A>, keep: spec_fn(A) -> bool, x: A)
    ensures
        s.filter(keep).contains(x) <==> s.contains(x) && keep(x),
{
    if s.filter(keep).contains(x) {
        let k = choose|k: int| 0 <= k < s.filter(keep).len() && s.filter(keep)[k] == x;
        let at = lemma_filter_origin(s, keep, k, k);
        assert(s[at.0] == x);
    }
    if s.contains(x) && keep(x) {
        let at = choose|at: int| 0 <= at < s.len() && s[at] == x;
        s.lemma_filter_contains(keep, at);
    }
}

/// File-name uniqueness within a directory. Where no two documents share
/// directory and file name, that is still so after a visit has inserted the
/// documents made from its work.
pub proof fn lemma_visit_keeps_documents_unique(
    catalog: Catalog,
    directory: uuid::Uuid,
    entries: Seq<Entry>,
    records: Seq<DocumentView>,
)
    requires
        catalog.documents_unique(),
        told_apart(entries),
        records_of(work_of(catalog, directory, entries), directory, records),
    ensures
        catalog.insert_documents(records).documents_unique(),
{
    let known = known_names(catalog, directory, entries);
    let unknown = |e: Entry| is_markdown(e) && !is_known(e, known);
    let work = work_of(catalog, directory, entries);
    let after = catalog.insert_documents(records);
    let held = catalog.documents.len() as int;
    assert forall|i: int, j: int|
        #![trigger after.documents[i], after.documents[j]]
        0 <= i < j < after.documents.len() implies !(after.documents[i].directory
        == after.documents[j].directory && after.documents[i].file_name
        == after.documents[j].file_name) by {
        if j < held {
            assert(after.documents[i] == catalog.documents[i]);
            assert(after.documents[j] == catalog.documents[j]);
        } else if i >= held {
            let at = lemma_filter_origin(entries, unknown, i - held, j - held);
            assert(after.documents[i] == records[i - held]);
            assert(after.documents[j] == records[j - held]);
            assert(entries[at.0].name->0@ != entries[at.1].name->0@);
        } else {
            let at = lemma_filter_origin(entries, unknown, j - held, j - held);
            let file = entries[at.0];
            assert(after.documents[i] == catalog.documents[i]);
            assert(after.documents[j] == records[j - held]);
            if catalog.documents[i].directory == directory && catalog.documents[i].file_name
                == file.name->0@ {
                lemma_name_asked(entries, at.0);
                lemma_answered(catalog, directory, entries, i);
                assert(is_known(file, known));
            }
        }
    }
}

/// Idempotence of ingestion. Once a visit has inserted the documents made
/// from its work, and for as long as the catalog goes on holding what it held
/// then, the same visit finds every Markdown file known: its work is empty,
/// and it inserts nothing.
pub proof fn lemma_second_visit_inserts_nothing(
    catalog: Catalog,
    directory: uuid::Uuid,
    entries: Seq<Entry>,
    records: Seq<DocumentView>,
    later: Catalog,
)
    requires
        records_of(work_of(catalog, directory, entries), directory, records),
        forall|d: DocumentView| #[trigger]
            catalog.insert_documents(records).documents.contains(d)
                ==> later.documents.contains(d),
    ensures
        work_of(later, directory, entries).len() == 0,
{
    let known = known_names(catalog, directory, entries);
    let unknown = |e: Entry| is_markdown(e) && !is_known(e, known);
    let work = work_of(catalog, directory, entries);
    let after = catalog.insert_documents(records);
    let known_later = known_names(later, directory, entries);
    let unknown_later = |e: Entry| is_markdown(e) && !is_known(e, known_later);
    let held = catalog.documents.len() as int;
    assert forall|at: int| 0 <= at < entries.len() implies !unknown_later(#[trigger] entries[at]) by {
        let file = entries[at];
        if is_markdown(file) {
            let made = if is_known(file, known) {
                let d = lemma_answer_held(catalog, directory, entries, file.name->0@);
                assert(after.documents[d] == catalog.documents[d]);
                after.documents[d]
            } else {
                entries.lemma_filter_contains(unknown, at);
                let k = choose|k: int| 0 <= k < work.len() && work[k] == file;
                assert(after.documents[held + k] == records[k]);
                after.documents[held + k]
            };
            assert(after.documents.contains(made));
            let d = choose|d: int| 0 <= d < later.documents.len() && later.documents[d] == made;
            lemma_name_asked(entries, at);
            lemma_answered(later, directory, entries, d);
            assert(is_known(file, known_later));
        }
    }
    assert(entries.all(|e: Entry| !unknown_later(e)));
    entries.lemma_all_neg_filter_empty(unknown_later);
}

} // verus!
