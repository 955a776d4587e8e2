//! The decisions of the directory walker.
//!
//! Visiting a directory alternates work on the filesystem and the catalog with
//! decisions. The decisions are here, one stage after the other: an `Arrival`
//! is a directory that was enumerated and has a usable name; once the catalog
//! has been asked for it, it is a `Visit`, either at once or after an
//! `Insertion`; a `Visit` names the sub-directories to walk next and the file
//! names to ask the catalog for, and with the catalog's answer it becomes the
//! `Work` that is handed to the batcher.

use crate::document::{Directory, Document};
use crate::error::{ErrorKind, ErrorView, KnawledgeError};
use vstd::prelude::*;
use vstd::string::*;

verus! {

/// The final segment of a directory's path, as the platform's path type gave
/// it.
#[derive(Debug, Clone, PartialEq, Eq)]
pub enum PathName {
    /// The path has no final segment.
    Absent,
    /// The final segment is not UTF-8; this is how it prints for debugging.
    NotUtf8(String),
    Name(String),
}

/// One entry of an enumerated directory.
#[derive(Debug, Clone, PartialEq, Eq)]
pub struct Entry {
    /// The entry's file name, where it is UTF-8.
    pub name: Option<String>,
    /// What follows the final `.` of the file name, where there is such a
    /// part and it is UTF-8.
    pub extension: Option<String>,
    pub path: String,
    pub is_dir: bool,
}

/// The texts of a sequence of strings.
pub open spec fn texts(strings: Seq<String>) -> Seq<Seq<char>> {
    strings.map_values(|s: String| s@)
}

/// The extension that marks a file as Markdown. It is matched exactly: `MD`
/// is another extension.
pub open spec fn markdown_extension() -> Seq<char> {
    "md"@
}

pub open spec fn is_markdown(entry: Entry) -> bool {
    entry.extension matches Some(extension) && extension@ == markdown_extension()
}

/// The file names of the given documents, in order.
pub open spec fn document_names(documents: Seq<Document>) -> Seq<Seq<char>> {
    documents.map_values(|d: Document| d.file_name@)
}

/// Whether the entry's file name is among the known ones. An entry without a
/// UTF-8 name is never known.
pub open spec fn is_known(entry: Entry, known: Seq<Seq<char>>) -> bool {
    entry.name matches Some(name) && known.contains(name@)
}

/// The paths of the sub-directories among the entries, in order.
pub open spec fn subdirectories_of(entries: Seq<Entry>) -> Seq<Seq<char>> {
    entries.filter(|e: Entry| e.is_dir).map_values(|e: Entry| e.path@)
}

/// The Markdown files among the entries, in order.
pub open spec fn markdown_of(entries: Seq<Entry>) -> Seq<Entry> {
    entries.filter(|e: Entry| is_markdown(e))
}

/// The file names of the Markdown files that have a UTF-8 name, in order:
/// what the catalog is asked about.
pub open spec fn file_names_of(entries: Seq<Entry>) -> Seq<Seq<char>> {
    entries.filter(|e: Entry| is_markdown(e) && e.name is Some).map_values(
        |e: Entry| e.name->0@,
    )
}

/// The Markdown files whose file name is not among the known ones, in order.
pub open spec fn unknown_of(entries: Seq<Entry>, known: Seq<Seq<char>>) -> Seq<Entry> {
    entries.filter(|e: Entry| is_markdown(e) && !is_known(e, known))
}

/// The paths of the given entries, in order.
pub open spec fn paths_of(entries: Seq<Entry>) -> Seq<Seq<char>> {
    entries.map_values(|e: Entry| e.path@)
}

/// What is said of a directory whose path has no final segment.
pub open spec fn unsupported(full_path: Seq<char>) -> ErrorView {
    ErrorView { kind: ErrorKind::InvalidDirectory, detail: full_path + ": unsupported directory"@ }
}

/// What is said of a directory whose name is not UTF-8.
pub open spec fn not_utf8(raw: Seq<char>) -> ErrorView {
    ErrorView { kind: ErrorKind::InvalidDirectory, detail: raw + ": not valid utf-8"@ }
}

/// One more element filters to one more element, or to the same.
pub proof fn lemma_filter_take<A>(s: Seq<A>, i: int, keep: spec_fn(A) -> bool)
    requires
        0 <= i < s.len(),
    ensures
        s.take(i + 1).filter(keep) == if keep(s[i]) {
            s.take(i).filter(keep).push(s[i])
        } else {
            s.take(i).filter(keep)
        },
{
    reveal(Seq::filter);
    assert(s.take(i + 1).drop_last() =~= s.take(i));
}

/// A directory that was enumerated and whose name can be looked up.
#[derive(Debug, Clone, PartialEq, Eq)]
pub struct Arrival {
    /// Canonicalised path.
    pub full_path: String,
    /// The final segment of the path.
    pub name: String,
    /// The directory that this one was found in; `None` for a root.
    pub parent: Option<uuid::Uuid>,
    pub entries: Vec<Entry>,
}

/// What the catalog is asked in order to find a directory.
#[derive(Debug, Clone, PartialEq, Eq)]
pub enum Lookup {
    /// The root directory of this name.
    Root { name: String },
    /// The directory of this name under this parent.
    Child { name: String, parent: uuid::Uuid },
}

/// A directory that the catalog does not hold yet.
#[derive(Debug, Clone, PartialEq, Eq)]
pub struct Insertion {
    /// Canonicalised path.
    pub path: String,
    pub name: String,
    pub parent: Option<uuid::Uuid>,
    pub entries: Vec<Entry>,
}

/// What follows the lookup of a directory.
#[derive(Debug, Clone, PartialEq, Eq)]
pub enum Admission {
    /// The catalog holds the directory.
    Known(Visit),
    /// The directory is to be inserted first.
    Insert(Insertion),
}

/// A directory with its record in the catalog.
#[derive(Debug, Clone, PartialEq, Eq)]
pub struct Visit {
    pub directory: Directory,
    pub entries: Vec<Entry>,
}

/// The files of one directory that are to be read, parsed and inserted.
#[derive(Debug, Clone, PartialEq, Eq)]
pub struct Work {
    /// Identifier of the directory that holds the files.
    pub directory: uuid::Uuid,
    /// Paths of the Markdown files that the catalog does not know.
    pub paths: Vec<String>,
    /// How many Markdown files the catalog knew already.
    pub existing: usize,
}

impl Arrival {
    /// Admits an enumerated directory to the walk, or refuses it for want of
    /// a name: a path without a final segment is unsupported, and one whose
    /// final segment is not UTF-8 is invalid.
    pub fn new(
        full_path: String,
        segment: PathName,
        entries: Vec<Entry>,
        parent: Option<uuid::Uuid>,
    ) -> (r: Result<Arrival, KnawledgeError>)
        ensures
            match segment {
                PathName::Absent => r matches Err(e) && e@ == unsupported(full_path@),
                PathName::NotUtf8(raw) => r matches Err(e) && e@ == not_utf8(raw@),
                PathName::Name(name) => r == Ok::<Arrival, KnawledgeError>(
                    Arrival { full_path, name, parent, entries },
                ),
            },
    {
        match segment {
            PathName::Absent => Err(
                KnawledgeError::InvalidDirectory(full_path.concat(": unsupported directory")),
            ),
            PathName::NotUtf8(raw) => Err(
                KnawledgeError::InvalidDirectory(raw.concat(": not valid utf-8")),
            ),
            PathName::Name(name) => Ok(Arrival { full_path, name, parent, entries }),
        }
    }

    /// How the catalog is asked for this directory: by name and parent, or by
    /// name among the roots where it has no parent.
    pub fn lookup(&self) -> (r: Lookup)
        ensures
            r == match self.parent {
                Some(parent) => Lookup::Child { name: self.name, parent },
                None => Lookup::Root { name: self.name },
            },
    {
        match self.parent {
            Some(parent) => Lookup::Child { name: self.name.clone(), parent },
            None => Lookup::Root { name: self.name.clone() },
        }
    }

    /// Takes the catalog's answer to the lookup of this directory. A
    /// directory that was found is visited as it is; one that was not is to
    /// be inserted under its canonical path, its name and its parent.
    pub fn found(self, found: Option<Directory>) -> (r: Admission)
        ensures
            r == match found {
                Some(directory) => Admission::Known(Visit { directory, entries: self.entries }),
                None => Admission::Insert(
                    Insertion {
                        path: self.full_path,
                        name: self.name,
                        parent: self.parent,
                        entries: self.entries,
                    },
                ),
            },
    {
        match found {
            Some(directory) => Admission::Known(Visit { directory, entries: self.entries }),
            None => Admission::Insert(
                Insertion {
                    path: self.full_path,
                    name: self.name,
                    parent: self.parent,
                    entries: self.entries,
                },
            ),
        }
    }
}

impl Insertion {
    /// Takes the record that the catalog made for this directory.
    pub fn inserted(self, directory: Directory) -> (r: Visit)
        ensures
            r == (Visit { directory, entries: self.entries }),
    {
        Visit { directory, entries: self.entries }
    }
}

impl Visit {
    /// The paths of the sub-directories, in the order of the enumeration.
    /// Each is walked with this directory as its parent before this
    /// directory's own files are looked at.
    pub fn subdirectories(&self) -> (r: Vec<String>)
        ensures
            texts(r@) == subdirectories_of(self.entries@),
    {
        let ghost is_dir = |e: Entry| e.is_dir;
        let mut r: Vec<String> = Vec::new();
        let mut i: usize = 0;
        while i < self.entries.len()
            invariant
                i <= self.entries.len(),
                is_dir == |e: Entry| e.is_dir,
                texts(r@) == self.entries@.take(i as int).filter(is_dir).map_values(
                    |e: Entry| e.path@,
                ),
            decreases self.entries.len() - i,
        {
            proof {
                lemma_filter_take(self.entries@, i as int, is_dir);
            }
            let ghost before = r@;
            if self.entries[i].is_dir {
                r.push(self.entries[i].path.clone());
                assert(texts(r@) =~= texts(before).push(self.entries[i as int].path@));
            }
            i += 1;
        }
        proof {
            assert(self.entries@.take(i as int) =~= self.entries@);
        }
        r
    }

    /// The file names to ask the catalog about: those of the Markdown files
    /// of this directory.
    pub fn file_names(&self) -> (r: Vec<String>)
        ensures
            texts(r@) == file_names_of(self.entries@),
    {
        let ghost named = |e: Entry| is_markdown(e) && e.name is Some;
        let md = "md".to_owned();
        let mut r: Vec<String> = Vec::new();
        let mut i: usize = 0;
        while i < self.entries.len()
            invariant
                i <= self.entries.len(),
                md@ == markdown_extension(),
                named == |e: Entry| is_markdown(e) && e.name is Some,
                texts(r@) == self.entries@.take(i as int).filter(named).map_values(
                    |e: Entry| e.name->0@,
                ),
            decreases self.entries.len() - i,
        {
            proof {
                lemma_filter_take(self.entries@, i as int, named);
            }
            let ghost before = r@;
            let entry = &self.entries[i];
            if has_extension(entry, &md) {
                match &entry.name {
                    Some(name) => {
                        r.push(name.clone());
                        assert(texts(r@) =~= texts(before).push(name@));
                    },
                    None => {},
                }
            }
            i += 1;
        }
        proof {
            assert(self.entries@.take(i as int) =~= self.entries@);
        }
        r
    }

    /// Takes the catalog's answer: the documents of this directory that bear
    /// one of the file names asked about. The Markdown files whose name is
    /// among them are left out; the others are the work, in the order of the
    /// enumeration.
    pub fn work(self, existing: &Vec<Document>) -> (r: Work)
        ensures
            r.directory == self.directory.id,
            texts(r.paths@) == paths_of(unknown_of(self.entries@, document_names(existing@))),
            r.existing == markdown_of(self.entries@).len() - unknown_of(
                self.entries@,
                document_names(existing@),
            ).len(),
    {
        let ghost markdown = |e: Entry| is_markdown(e);
        let ghost known_names = document_names(existing@);
        let ghost unknown = |e: Entry| is_markdown(e) && !is_known(e, known_names);
        let md = "md".to_owned();
        let mut paths: Vec<String> = Vec::new();
        let mut known: usize = 0;
        let mut i: usize = 0;
        while i < self.entries.len()
            invariant
                i <= self.entries.len(),
                md@ == markdown_extension(),
                markdown == |e: Entry| is_markdown(e),
                known_names == document_names(existing@),
                unknown == |e: Entry| is_markdown(e) && !is_known(e, known_names),
                texts(paths@) == paths_of(self.entries@.take(i as int).filter(unknown)),
                known + self.entries@.take(i as int).filter(unknown).len()
                    == self.entries@.take(i as int).filter(markdown).len(),
                known <= i,
            decreases self.entries.len() - i,
        {
            proof {
                lemma_filter_take(self.entries@, i as int, markdown);
                lemma_filter_take(self.entries@, i as int, unknown);
            }
            let ghost before = paths@;
            let entry = &self.entries[i];
            if has_extension(entry, &md) {
                if knows(existing, entry) {
                    known += 1;
                } else {
                    paths.push(entry.path.clone());
                    assert(texts(paths@) =~= texts(before).push(entry.path@));
                    assert(paths_of(
                        self.entries@.take(i as int).filter(unknown).push(self.entries[i as int]),
                    ) =~= paths_of(self.entries@.take(i as int).filter(unknown)).push(
                        entry.path@,
                    ));
                }
            }
            i += 1;
        }
        proof {
            assert(self.entries@.take(i as int) =~= self.entries@);
        }
        Work { directory: self.directory.id, paths, existing: known }
    }
}

/// Whether the entry's extension is `extension`.
fn has_extension(entry: &Entry, extension: &String) -> (b: bool)
    ensures
        b == (entry.extension matches Some(x) && x@ == extension@),
{
    match &entry.extension {
        Some(x) => *x == *extension,
        None => false,
    }
}

/// Whether `existing` holds a document of the entry's file name.
fn knows(existing: &Vec<Document>, entry: &Entry) -> (b: bool)
    ensures
        b == is_known(*entry, document_names(existing@)),
{
    match &entry.name {
        None => false,
        Some(name) => {
            let mut i: usize = 0;
            while i < existing.len()
                invariant
                    i <= existing.len(),
                    entry.name == Some(*name),
                    forall|j: int| 0 <= j < i ==> (#[trigger] existing[j]).file_name@ != name@,
                decreases existing.len() - i,
            {
                if existing[i].file_name == *name {
                    assert(document_names(existing@)[i as int] == name@);
                    return true;
                }
                i += 1;
            }
            false
        },
    }
}

} // verus!
