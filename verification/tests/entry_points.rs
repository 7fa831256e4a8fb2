use iwork::{keynote, numbers, pages, DocumentKind, Error};

const MODERN_NOVEL_EXAMPLE: &str = "examples/pages/modern_novel.pages";
const PERSONAL_BUDGET_EXAMPLE: &str = "examples/numbers/personal_budget.numbers";

#[test]
fn app_specific_entry_points_reject_the_wrong_extension() {
    let numbers_error = numbers::Document::check_path(MODERN_NOVEL_EXAMPLE).unwrap_err();
    assert!(matches!(numbers_error, Error::UnsupportedDocumentType(_)));

    let pages_error = pages::Document::check_path(PERSONAL_BUDGET_EXAMPLE).unwrap_err();
    assert!(matches!(pages_error, Error::UnsupportedDocumentType(_)));

    let keynote_error = keynote::Document::check_path(MODERN_NOVEL_EXAMPLE).unwrap_err();
    assert!(matches!(keynote_error, Error::UnsupportedDocumentType(_)));
}

#[test]
fn entry_points_accept_their_own_extension_in_any_case() {
    assert!(numbers::Document::check_path(PERSONAL_BUDGET_EXAMPLE).is_ok());
    assert!(pages::Document::check_path("dir/Report.PAGES").is_ok());
    assert!(keynote::Document::check_path("talk.Key").is_ok());
    assert_eq!(DocumentKind::from_path("talk.Key"), DocumentKind::Keynote);
}

#[test]
fn refused_paths_are_reported_verbatim() {
    match keynote::Document::check_path("notes.txt") {
        Err(Error::UnsupportedDocumentType(p)) => assert_eq!(p, "notes.txt"),
        other => panic!("unexpected {other:?}"),
    }
    assert!(numbers::Document::check_path("numbers").is_err());
}
