use knawledge::error::{ErrorKind, KnawledgeError};

fn every_failure() -> Vec<(KnawledgeError, ErrorKind, &'static str, u16, bool)> {
    let d = || "detail".to_string();
    vec![
        (KnawledgeError::IO(d()), ErrorKind::IO, "IO: detail", 500, true),
        (KnawledgeError::Utf8(d()), ErrorKind::Utf8, "UTF-8: detail", 400, true),
        (KnawledgeError::Parse(d()), ErrorKind::Parse, "Parse int: detail", 500, true),
        (KnawledgeError::MiniJinja(d()), ErrorKind::MiniJinja, "Template: detail", 500, true),
        (KnawledgeError::NotFound(d()), ErrorKind::NotFound, "Not found: detail", 404, true),
        (KnawledgeError::Watcher(d()), ErrorKind::Watcher, "Inotify error: detail", 500, true),
        (KnawledgeError::Sqlx(d()), ErrorKind::Sqlx, "SQL: detail", 500, false),
        (
            KnawledgeError::DoesNotExist(d()),
            ErrorKind::DoesNotExist,
            "Does not exist: detail",
            404,
            true,
        ),
        (
            KnawledgeError::InvalidDirectory(d()),
            ErrorKind::InvalidDirectory,
            "Invalid Directory: detail",
            500,
            false,
        ),
        (KnawledgeError::SerdeYaml(d()), ErrorKind::SerdeYaml, "YAML error: detail", 500, false),
    ]
}

#[test]
fn a_failure_has_its_kind_and_detail() {
    for (failure, kind, _, _, _) in every_failure() {
        assert_eq!(failure.kind(), kind);
        assert_eq!(failure.detail(), "detail");
    }
}

#[test]
fn a_message_names_the_kind_before_the_detail() {
    for (failure, _, message, _, _) in every_failure() {
        assert_eq!(failure.message(), message);
    }
    assert_eq!(KnawledgeError::IO(String::new()).message(), "IO: ");
}

#[test]
fn a_failure_is_answered_with_its_status() {
    for (failure, _, _, status, _) in every_failure() {
        assert_eq!(failure.status_code(), status, "{:?}", failure);
    }
}

#[test]
fn an_answer_shows_the_detail_or_the_whole_message() {
    for (failure, _, message, _, bare) in every_failure() {
        let body = failure.response_body();
        if bare {
            assert_eq!(body, "detail", "{:?}", failure);
        } else {
            assert_eq!(body, message, "{:?}", failure);
        }
    }
}
