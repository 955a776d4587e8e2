use knawledge::batch::{process_files, Loaded};
use knawledge::document::{Directory, Document, DocumentMeta};
use knawledge::error::KnawledgeError;
use knawledge::walk::{Admission, Arrival, Entry, Insertion, Lookup, PathName, Visit, Work};
use uuid::Uuid;

fn entry(directory: &str, name: &str, is_dir: bool) -> Entry {
    let path = std::path::Path::new(directory).join(name);
    Entry {
        name: Some(name.to_string()),
        extension: path.extension().and_then(|e| e.to_str()).map(|e| e.to_string()),
        path: path.display().to_string(),
        is_dir,
    }
}

fn directory(id: u128, name: &str, parent: Option<u128>, path: &str) -> Directory {
    Directory {
        id: Uuid::from_u128(id),
        name: name.to_string(),
        parent: parent.map(Uuid::from_u128),
        path: path.to_string(),
        created_at: 1_700_000_000_000_000,
        updated_at: 1_700_000_000_000_000,
    }
}

fn document(directory: u128, name: &str) -> Document {
    Document {
        file_name: name.to_string(),
        directory: Uuid::from_u128(directory),
        path: format!("/notes/{}", name),
    }
}

fn visit(entries: Vec<Entry>) -> Visit {
    Visit { directory: directory(1, "notes", None, "/notes"), entries }
}

fn mixed() -> Vec<Entry> {
    vec![
        entry("/notes", "a.md", false),
        entry("/notes", "sub", true),
        entry("/notes", "readme.txt", false),
        entry("/notes", "c.MD", false),
        entry("/notes", "b.md", false),
        entry("/notes", "archive.md", true),
        entry("/notes", ".md", false),
        entry("/notes", "md", false),
        entry("/notes", "d.md.bak", false),
        entry("/notes", "e.tar.md", false),
    ]
}

#[test]
fn a_directory_without_final_segment_is_unsupported() {
    let r = Arrival::new("/".to_string(), PathName::Absent, Vec::new(), None);
    match r {
        Err(KnawledgeError::InvalidDirectory(detail)) => {
            assert_eq!(detail, "/: unsupported directory")
        }
        other => panic!("{:?}", other),
    }
}

#[test]
fn a_directory_whose_name_is_not_utf8_is_invalid() {
    let r = Arrival::new(
        "/notes/\u{fffd}".to_string(),
        PathName::NotUtf8("\"\\xFF\"".to_string()),
        Vec::new(),
        Some(Uuid::from_u128(1)),
    );
    match r {
        Err(e) => {
            assert_eq!(e.message(), "Invalid Directory: \"\\xFF\": not valid utf-8");
            assert_eq!(e.status_code(), 500);
        }
        other => panic!("{:?}", other),
    }
}

#[test]
fn a_named_directory_arrives() {
    let entries = vec![entry("/notes", "a.md", false)];
    let arrival = Arrival::new(
        "/notes".to_string(),
        PathName::Name("notes".to_string()),
        entries.clone(),
        None,
    )
    .unwrap();
    assert_eq!(
        arrival,
        Arrival { full_path: "/notes".to_string(), name: "notes".to_string(), parent: None, entries }
    );
}

#[test]
fn a_root_is_looked_up_by_name_and_a_child_by_name_and_parent() {
    let root = Arrival {
        full_path: "/notes".to_string(),
        name: "notes".to_string(),
        parent: None,
        entries: Vec::new(),
    };
    assert_eq!(root.lookup(), Lookup::Root { name: "notes".to_string() });
    let child = Arrival {
        full_path: "/notes/sub".to_string(),
        name: "sub".to_string(),
        parent: Some(Uuid::from_u128(1)),
        entries: Vec::new(),
    };
    assert_eq!(
        child.lookup(),
        Lookup::Child { name: "sub".to_string(), parent: Uuid::from_u128(1) }
    );
}

#[test]
fn a_directory_that_the_catalog_holds_is_visited_as_it_is() {
    let entries = vec![entry("/notes/sub", "b.md", false)];
    let arrival = Arrival {
        full_path: "/notes/sub".to_string(),
        name: "sub".to_string(),
        parent: Some(Uuid::from_u128(1)),
        entries: entries.clone(),
    };
    let held = directory(2, "sub", Some(1), "/notes/sub");
    assert_eq!(
        arrival.found(Some(held.clone())),
        Admission::Known(Visit { directory: held, entries })
    );
}

#[test]
fn a_directory_that_the_catalog_lacks_is_inserted_first() {
    let entries = vec![entry("/notes/sub", "b.md", false)];
    let arrival = Arrival {
        full_path: "/notes/sub".to_string(),
        name: "sub".to_string(),
        parent: Some(Uuid::from_u128(1)),
        entries: entries.clone(),
    };
    let insertion = match arrival.found(None) {
        Admission::Insert(insertion) => insertion,
        other => panic!("{:?}", other),
    };
    assert_eq!(
        insertion,
        Insertion {
            path: "/notes/sub".to_string(),
            name: "sub".to_string(),
            parent: Some(Uuid::from_u128(1)),
            entries: entries.clone(),
        }
    );
    let made = directory(2, "sub", Some(1), "/notes/sub");
    assert_eq!(insertion.inserted(made.clone()), Visit { directory: made, entries });
}

#[test]
fn subdirectories_come_in_the_order_of_the_enumeration() {
    assert_eq!(visit(mixed()).subdirectories(), vec!["/notes/sub", "/notes/archive.md"]);
    assert_eq!(visit(Vec::new()).subdirectories(), Vec::<String>::new());
}

#[test]
fn non_md_ignored() {
    let with_others = visit(vec![
        entry("/notes", "a.md", false),
        entry("/notes", "readme.txt", false),
        entry("/notes", "c.MD", false),
    ]);
    assert_eq!(with_others.file_names(), vec!["a.md"]);
    let work = with_others.work(&Vec::new());
    assert_eq!(work.paths, vec!["/notes/a.md"]);
    assert_eq!(work.existing, 0);
}

#[test]
fn only_the_md_extension_counts() {
    let v = visit(mixed());
    assert_eq!(v.file_names(), vec!["a.md", "b.md", "archive.md", "e.tar.md"]);
    assert_eq!(
        v.work(&Vec::new()).paths,
        vec!["/notes/a.md", "/notes/b.md", "/notes/archive.md", "/notes/e.tar.md"]
    );
}

#[test]
fn known_files_are_left_out_of_the_work() {
    let existing = vec![document(1, "b.md"), document(1, "zzz.md")];
    let work = visit(mixed()).work(&existing);
    assert_eq!(
        work,
        Work {
            directory: Uuid::from_u128(1),
            paths: vec![
                "/notes/a.md".to_string(),
                "/notes/archive.md".to_string(),
                "/notes/e.tar.md".to_string()
            ],
            existing: 1,
        }
    );
}

#[test]
fn nothing_is_left_where_every_file_is_known() {
    let existing = vec![
        document(1, "e.tar.md"),
        document(1, "archive.md"),
        document(1, "b.md"),
        document(1, "a.md"),
    ];
    let work = visit(mixed()).work(&existing);
    assert_eq!(work.paths, Vec::<String>::new());
    assert_eq!(work.existing, 4);
}

#[test]
fn a_file_without_utf8_name_is_never_known() {
    let nameless = Entry {
        name: None,
        extension: Some("md".to_string()),
        path: "/notes/\u{fffd}.md".to_string(),
        is_dir: false,
    };
    let v = visit(vec![nameless, entry("/notes", "a.md", false)]);
    assert_eq!(v.file_names(), vec!["a.md"]);
    let work = v.work(&vec![document(1, "a.md"), document(1, "__unknown")]);
    assert_eq!(work.paths, vec!["/notes/\u{fffd}.md"]);
    assert_eq!(work.existing, 1);
}

// A catalog and a file tree in memory, to walk a whole tree with.

struct Store {
    directories: Vec<Directory>,
    documents: Vec<(Document, DocumentMeta)>,
}

impl Store {
    fn find(&self, name: &str, parent: Option<Uuid>) -> Option<Directory> {
        self.directories.iter().find(|d| d.name == name && d.parent == parent).cloned()
    }

    fn insert_directory(&mut self, path: &str, name: &str, parent: Option<Uuid>) -> Directory {
        assert!(self.find(name, parent).is_none(), "directory entered twice");
        let made = Directory {
            id: Uuid::from_u128(self.directories.len() as u128 + 1),
            name: name.to_string(),
            parent,
            path: path.to_string(),
            created_at: 0,
            updated_at: 0,
        };
        self.directories.push(made.clone());
        made
    }

    fn list(&self, directory: Uuid, names: &[String]) -> Vec<Document> {
        self.documents
            .iter()
            .filter(|(d, _)| d.directory == directory && names.contains(&d.file_name))
            .map(|(d, _)| d.clone())
            .collect()
    }

    fn insert_document(&mut self, document: Document, meta: DocumentMeta) {
        assert!(
            !self
                .documents
                .iter()
                .any(|(d, _)| d.directory == document.directory
                    && d.file_name == document.file_name),
            "document entered twice"
        );
        self.documents.push((document, meta));
    }

    fn document(&self, name: &str) -> &(Document, DocumentMeta) {
        self.documents.iter().find(|(d, _)| d.file_name == name).unwrap()
    }
}

enum Node {
    File(&'static str, &'static str),
    Dir(&'static str, Vec<Node>),
}

fn deserialise(source: &str) -> Result<DocumentMeta, KnawledgeError> {
    let value: serde_yaml::Value =
        serde_yaml::from_str(source).map_err(|e| KnawledgeError::SerdeYaml(e.to_string()))?;
    let field = |key: &str| value.get(key).and_then(|v| v.as_str()).map(|s| s.to_string());
    Ok(DocumentMeta {
        custom_id: field("id"),
        title: field("title"),
        reading_time: value.get("reading_time").and_then(|v| v.as_i64()).map(|n| n as i32),
        tags: value.get("tags").and_then(|v| v.as_sequence()).map(|tags| {
            tags.iter().filter_map(|t| t.as_str()).map(|t| t.to_string()).collect()
        }),
    })
}

fn load(directory: Uuid, path: &str, content: &str) -> Loaded {
    let name = Document::name(std::path::Path::new(path).file_name().and_then(|n| n.to_str()));
    let front = match DocumentMeta::front_matter(content) {
        Some(source) => deserialise(source),
        None => Ok(DocumentMeta::default()),
    };
    Document::new(directory, name, path.to_string(), content, front)
}

/// Walks `children` of the directory at `path`; reports, for each directory,
/// its path and how many files were known and how many were processed.
fn walk(
    store: &mut Store,
    path: &str,
    children: &[Node],
    parent: Option<Uuid>,
    report: &mut Vec<(String, usize, usize)>,
) -> Result<(), KnawledgeError> {
    let entries = children
        .iter()
        .map(|child| match child {
            Node::File(name, _) => entry(path, name, false),
            Node::Dir(name, _) => entry(path, name, true),
        })
        .collect();
    let segment = match std::path::Path::new(path).file_name().and_then(|n| n.to_str()) {
        Some(name) => PathName::Name(name.to_string()),
        None => PathName::Absent,
    };
    let arrival = Arrival::new(path.to_string(), segment, entries, parent)?;
    let found = match arrival.lookup() {
        Lookup::Root { name } => store.find(&name, None),
        Lookup::Child { name, parent } => store.find(&name, Some(parent)),
    };
    let visit = match arrival.found(found) {
        Admission::Known(visit) => visit,
        Admission::Insert(insertion) => {
            let made = store.insert_directory(&insertion.path, &insertion.name, insertion.parent);
            insertion.inserted(made)
        }
    };
    for sub in visit.subdirectories() {
        let below = children
            .iter()
            .find_map(|child| match child {
                Node::Dir(name, below) if entry(path, name, true).path == sub => Some(below),
                _ => None,
            })
            .unwrap();
        walk(store, &sub, below, Some(visit.directory.id), report)?;
    }
    let existing = store.list(visit.directory.id, &visit.file_names());
    let work = visit.work(&existing);
    let loaded = work
        .paths
        .iter()
        .map(|file| {
            let content = children
                .iter()
                .find_map(|child| match child {
                    Node::File(name, content) if entry(path, name, false).path == *file => {
                        Some(*content)
                    }
                    _ => None,
                })
                .unwrap();
            load(work.directory, file, content)
        })
        .collect();
    let mut files = Vec::new();
    process_files(4, loaded, &mut files)?;
    let processed = files.len();
    for (document, meta) in files {
        store.insert_document(document, meta);
    }
    report.push((path.to_string(), work.existing, processed));
    Ok(())
}

fn notes() -> Vec<Node> {
    vec![
        Node::File("a.md", "# Hello\nsome text"),
        Node::Dir("sub", vec![Node::File("b.md", "---\nid: beta\ntags: [x,y]\n---\nbody of b")]),
    ]
}

#[test]
fn fresh_root() {
    let mut store = Store { directories: Vec::new(), documents: Vec::new() };
    let mut report = Vec::new();
    walk(&mut store, "/notes", &notes(), None, &mut report).unwrap();

    assert_eq!(store.directories.len(), 2);
    let root = store.find("notes", None).unwrap();
    let sub = store.find("sub", Some(root.id)).unwrap();
    assert_eq!(sub.parent, Some(root.id));
    assert_eq!(root.path, "/notes");
    assert_eq!(sub.path, "/notes/sub");

    assert_eq!(store.documents.len(), 2);
    let (a, a_meta) = store.document("a.md");
    assert_eq!(a.directory, root.id);
    assert_eq!(a.path, "/notes/a.md");
    assert_eq!(a_meta.title, Some("Hello".to_string()));
    assert_eq!(a_meta.custom_id, None);
    let (b, b_meta) = store.document("b.md");
    assert_eq!(b.directory, sub.id);
    assert_eq!(b_meta.custom_id, Some("beta".to_string()));
    assert_eq!(b_meta.tags, Some(vec!["x".to_string(), "y".to_string()]));
    assert_eq!(b_meta.reading_time, Some(0));

    assert_eq!(
        report,
        vec![("/notes/sub".to_string(), 0, 1), ("/notes".to_string(), 0, 1)]
    );
}

#[test]
fn re_run_is_a_no_op() {
    let mut store = Store { directories: Vec::new(), documents: Vec::new() };
    walk(&mut store, "/notes", &notes(), None, &mut Vec::new()).unwrap();
    let directories = store.directories.clone();
    let documents = store.documents.clone();

    let mut report = Vec::new();
    walk(&mut store, "/notes", &notes(), None, &mut report).unwrap();
    assert_eq!(store.directories, directories);
    assert_eq!(store.documents, documents);
    assert_eq!(
        report,
        vec![("/notes/sub".to_string(), 1, 0), ("/notes".to_string(), 1, 0)]
    );
}

#[test]
fn other_files_add_no_document() {
    let mut store = Store { directories: Vec::new(), documents: Vec::new() };
    walk(&mut store, "/notes", &notes(), None, &mut Vec::new()).unwrap();
    let mut more = notes();
    more.push(Node::File("readme.txt", "# Not a note"));
    more.push(Node::File("c.MD", "# Not a note either"));
    let mut report = Vec::new();
    walk(&mut store, "/notes", &more, None, &mut report).unwrap();
    assert_eq!(store.documents.len(), 2);
    assert_eq!(report.last(), Some(&("/notes".to_string(), 1, 0)));
}

#[test]
fn a_new_file_is_the_only_one_processed() {
    let mut store = Store { directories: Vec::new(), documents: Vec::new() };
    walk(&mut store, "/notes", &notes(), None, &mut Vec::new()).unwrap();
    let mut more = notes();
    more.insert(0, Node::File("new.md", "---\ntitle: New\n---\n# Other"));
    let mut report = Vec::new();
    walk(&mut store, "/notes", &more, None, &mut report).unwrap();
    assert_eq!(store.documents.len(), 3);
    assert_eq!(store.document("new.md").1.title, Some("New".to_string()));
    assert_eq!(report.last(), Some(&("/notes".to_string(), 1, 1)));
}

#[test]
fn malformed_front_matter_aborts_the_directory() {
    let mut store = Store { directories: Vec::new(), documents: Vec::new() };
    let tree = vec![Node::File("bad.md", "---\nid: [unclosed\n---\nbody")];
    let r = walk(&mut store, "/notes", &tree, None, &mut Vec::new());
    assert!(matches!(r, Err(KnawledgeError::SerdeYaml(_))));
    assert_eq!(store.documents.len(), 0);
    assert_eq!(store.directories.len(), 1);
}

#[test]
fn a_root_without_name_is_refused_before_the_catalog_is_touched() {
    let mut store = Store { directories: Vec::new(), documents: Vec::new() };
    let r = walk(&mut store, "/", &notes(), None, &mut Vec::new());
    assert!(matches!(r, Err(KnawledgeError::InvalidDirectory(_))));
    assert!(store.directories.is_empty());
}

fn library() -> Vec<Node> {
    vec![
        Node::Dir(
            "work",
            vec![
                Node::File("index.md", "# Work"),
                Node::Dir("notes", vec![Node::File("index.md", "# Work notes")]),
            ],
        ),
        Node::Dir(
            "home",
            vec![
                Node::File("index.md", "# Home"),
                Node::Dir("notes", vec![Node::File("index.md", "# Home notes")]),
            ],
        ),
        Node::File("index.md", "---\nid: top\n---\n# Top"),
    ]
}

fn assert_rows_unique(store: &Store) {
    for (i, a) in store.directories.iter().enumerate() {
        for b in store.directories.iter().skip(i + 1) {
            assert!(!(a.name == b.name && a.parent == b.parent), "{:?} {:?}", a, b);
        }
    }
    for (i, (a, _)) in store.documents.iter().enumerate() {
        for (b, _) in store.documents.iter().skip(i + 1) {
            assert!(!(a.directory == b.directory && a.file_name == b.file_name), "{:?} {:?}", a, b);
        }
    }
}

#[test]
fn rows_stay_unique_where_names_repeat_across_directories() {
    let mut store = Store { directories: Vec::new(), documents: Vec::new() };
    walk(&mut store, "/library", &library(), None, &mut Vec::new()).unwrap();
    assert_eq!(store.directories.len(), 5);
    assert_eq!(store.documents.len(), 5);
    assert_rows_unique(&store);
    let root = store.find("library", None).unwrap();
    let work = store.find("work", Some(root.id)).unwrap();
    let home = store.find("home", Some(root.id)).unwrap();
    assert_ne!(
        store.find("notes", Some(work.id)).unwrap().id,
        store.find("notes", Some(home.id)).unwrap().id
    );
}

#[test]
fn a_second_walk_of_a_deeper_tree_enters_nothing() {
    let mut store = Store { directories: Vec::new(), documents: Vec::new() };
    walk(&mut store, "/library", &library(), None, &mut Vec::new()).unwrap();
    let directories = store.directories.clone();
    let documents = store.documents.clone();
    let mut report = Vec::new();
    walk(&mut store, "/library", &library(), None, &mut report).unwrap();
    assert_eq!(store.directories, directories);
    assert_eq!(store.documents, documents);
    assert!(report.iter().all(|(_, existing, processed)| *existing == 1 && *processed == 0));
    assert_eq!(report.len(), 5);
    assert_rows_unique(&store);
}

#[test]
fn two_roots_of_one_name_are_one_directory() {
    let mut store = Store { directories: Vec::new(), documents: Vec::new() };
    walk(&mut store, "/a/notes", &notes(), None, &mut Vec::new()).unwrap();
    let mut report = Vec::new();
    walk(&mut store, "/b/notes", &notes(), None, &mut report).unwrap();
    assert_eq!(store.directories.len(), 2);
    assert_eq!(store.documents.len(), 2);
    assert_rows_unique(&store);
    assert_eq!(report.last(), Some(&("/b/notes".to_string(), 1, 0)));
}

#[test]
fn a_clone_bears_the_same_identifiers() {
    let held = directory(9, "sub", Some(1), "/notes/sub");
    let copy = held.clone();
    assert_eq!(copy.id, Uuid::from_u128(9));
    assert_eq!(copy.parent, Some(Uuid::from_u128(1)));
    assert_eq!(copy, held);
    let doc = document(9, "a.md");
    assert_eq!(doc.clone().directory, Uuid::from_u128(9));
}
