use knawledge::batch::{plan_round, process_files, Batch, Loaded, FILES_PER_THREAD};
use knawledge::document::{Document, DocumentMeta};
use knawledge::error::KnawledgeError;
use uuid::Uuid;

fn record(i: usize) -> (Document, DocumentMeta) {
    (
        Document {
            file_name: format!("{}.md", i),
            directory: Uuid::from_u128(1),
            path: format!("/notes/{}.md", i),
        },
        DocumentMeta { title: Some(format!("Note {}", i)), ..DocumentMeta::default() },
    )
}

fn failure(i: usize) -> KnawledgeError {
    KnawledgeError::IO(format!("cannot read {}", i))
}

/// `total` files, of which those at `failing` could not be loaded.
fn loaded(total: usize, failing: &[usize]) -> Vec<Loaded> {
    (0..total).map(|i| if failing.contains(&i) { Err(failure(i)) } else { Ok(record(i)) }).collect()
}

fn names(files: &[(Document, DocumentMeta)]) -> Vec<String> {
    files.iter().map(|(d, _)| d.file_name.clone()).collect()
}

fn expected(indices: impl Iterator<Item = usize>) -> Vec<String> {
    indices.map(|i| format!("{}.md", i)).collect()
}

fn details(failures: &[KnawledgeError]) -> Vec<String> {
    failures.iter().map(|e| e.detail().to_string()).collect()
}

#[test]
fn files_per_thread_is_128() {
    assert_eq!(FILES_PER_THREAD, 128);
}

#[test]
fn parallel_batch() {
    // 300 files on 4 threads: one round of three batches.
    let plan = plan_round(300, 0, 4);
    assert_eq!(
        plan,
        vec![
            Batch { start: 0, end: 128 },
            Batch { start: 128, end: 256 },
            Batch { start: 256, end: 300 }
        ]
    );
    assert_eq!(plan_round(300, 300, 4), vec![]);
    let mut files = Vec::new();
    let dropped = process_files(4, loaded(300, &[]), &mut files).unwrap();
    assert!(dropped.is_empty());
    assert_eq!(files.len(), 300);
    assert_eq!(names(&files), expected(0..300));
}

#[test]
fn a_round_holds_no_more_batches_than_threads() {
    assert_eq!(plan_round(300, 0, 1), vec![Batch { start: 0, end: 128 }]);
    assert_eq!(plan_round(300, 128, 1), vec![Batch { start: 128, end: 256 }]);
    assert_eq!(plan_round(300, 256, 1), vec![Batch { start: 256, end: 300 }]);
    assert_eq!(
        plan_round(1000, 0, 2),
        vec![Batch { start: 0, end: 128 }, Batch { start: 128, end: 256 }]
    );
    assert_eq!(
        plan_round(300, 256, 2),
        vec![Batch { start: 256, end: 300 }]
    );
}

#[test]
fn a_round_starts_where_it_is_told() {
    assert_eq!(
        plan_round(300, 10, 4),
        vec![
            Batch { start: 10, end: 138 },
            Batch { start: 138, end: 266 },
            Batch { start: 266, end: 300 }
        ]
    );
    assert_eq!(plan_round(128, 0, 4), vec![Batch { start: 0, end: 128 }]);
    assert_eq!(
        plan_round(129, 0, 4),
        vec![Batch { start: 0, end: 128 }, Batch { start: 128, end: 129 }]
    );
}

#[test]
fn no_round_without_files_or_threads() {
    assert_eq!(plan_round(0, 0, 4), vec![]);
    assert_eq!(plan_round(10, 11, 4), vec![]);
    assert_eq!(plan_round(10, 0, 0), vec![]);
    assert_eq!(plan_round(usize::MAX, usize::MAX - 5, 3), vec![Batch {
        start: usize::MAX - 5,
        end: usize::MAX
    }]);
}

#[test]
fn nothing_to_process() {
    let mut files = vec![record(1000)];
    let dropped = process_files(4, Vec::new(), &mut files).unwrap();
    assert!(dropped.is_empty());
    assert_eq!(names(&files), vec!["1000.md".to_string()]);
}

#[test]
fn records_join_what_is_there() {
    let mut files = vec![record(1000)];
    process_files(2, loaded(3, &[]), &mut files).unwrap();
    assert_eq!(names(&files), vec!["1000.md", "0.md", "1.md", "2.md"]);
}

#[test]
fn every_file_is_gathered_in_order_whatever_the_threads() {
    for threads in [1usize, 2, 3, 4, 7, 64] {
        for total in [1usize, 127, 128, 129, 300, 1025] {
            let mut files = Vec::new();
            let dropped = process_files(threads, loaded(total, &[]), &mut files).unwrap();
            assert!(dropped.is_empty());
            assert_eq!(names(&files), expected(0..total), "{} files, {} threads", total, threads);
        }
    }
}

#[test]
fn a_single_batch_surfaces_its_first_failure() {
    let mut files = Vec::new();
    let r = process_files(4, loaded(100, &[40, 60]), &mut files);
    match r {
        Err(KnawledgeError::IO(detail)) => assert_eq!(detail, "cannot read 40"),
        other => panic!("{:?}", other),
    }
    assert_eq!(names(&files), expected(0..40));
}

#[test]
fn one_thread_takes_every_round_in_line() {
    let mut files = Vec::new();
    let r = process_files(1, loaded(300, &[130]), &mut files);
    assert!(matches!(r, Err(KnawledgeError::IO(_))));
    assert_eq!(names(&files), expected(0..130));
}

#[test]
fn a_failed_batch_among_several_is_set_aside() {
    let mut files = Vec::new();
    let dropped = process_files(4, loaded(300, &[200, 210]), &mut files).unwrap();
    assert_eq!(details(&dropped), vec!["cannot read 200"]);
    assert_eq!(names(&files), expected((0..128).chain(256..300)));
}

#[test]
fn every_failed_batch_is_set_aside() {
    let mut files = Vec::new();
    let dropped = process_files(4, loaded(300, &[0, 299]), &mut files).unwrap();
    assert_eq!(details(&dropped), vec!["cannot read 0", "cannot read 299"]);
    assert_eq!(names(&files), expected(128..256));
}

#[test]
fn a_last_round_of_one_batch_is_taken_in_line() {
    // 4 threads, 600 files: a round of four batches, then one batch of 88.
    let mut files = Vec::new();
    let r = process_files(4, loaded(600, &[130, 520]), &mut files);
    match r {
        Err(KnawledgeError::IO(detail)) => assert_eq!(detail, "cannot read 520"),
        other => panic!("{:?}", other),
    }
    assert_eq!(names(&files), expected((0..128).chain(256..520)));
}

#[test]
fn rounds_follow_one_another() {
    // 2 threads, 600 files: rounds of 256, 256 and 88 files.
    let mut files = Vec::new();
    let dropped = process_files(2, loaded(600, &[5, 300]), &mut files).unwrap();
    assert_eq!(details(&dropped), vec!["cannot read 5", "cannot read 300"]);
    assert_eq!(names(&files), expected((128..256).chain(384..600)));
}

#[test]
fn metadata_travels_with_its_document() {
    let mut files = Vec::new();
    process_files(4, loaded(130, &[]), &mut files).unwrap();
    for (i, (document, meta)) in files.iter().enumerate() {
        assert_eq!(document.path, format!("/notes/{}.md", i));
        assert_eq!(meta.title, Some(format!("Note {}", i)));
    }
}
