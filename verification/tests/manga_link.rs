use acerola_mangadex::domain::manga_link::{extract_manga_id, title_segment, ParsedUrl};
use acerola_mangadex::infra::AppError;

#[test]
fn extracts_manga_id_from_title_url() {
    let id = extract_manga_id(
        "https://mangadex.org/title/801513ba-a712-498c-8f57-cae55b38cc92/berserk",
    )
    .unwrap();

    assert_eq!(id, "801513ba-a712-498c-8f57-cae55b38cc92");
}

#[test]
fn accepts_raw_uuid() {
    let id = extract_manga_id("801513ba-a712-498c-8f57-cae55b38cc92").unwrap();

    assert_eq!(id, "801513ba-a712-498c-8f57-cae55b38cc92");
}

#[test]
fn rejects_other_hosts() {
    assert!(
        extract_manga_id("https://example.com/title/801513ba-a712-498c-8f57-cae55b38cc92")
            .is_err()
    );
}

#[test]
fn canonicalises_uuids_and_is_a_fixed_point() {
    let id = extract_manga_id("  801513BA-A712-498C-8F57-CAE55B38CC92 ").unwrap();
    assert_eq!(id, "801513ba-a712-498c-8f57-cae55b38cc92");
    assert_eq!(extract_manga_id(&id).unwrap(), id);
    let simple = extract_manga_id("801513baa712498c8f57cae55b38cc92").unwrap();
    assert_eq!(simple, "801513ba-a712-498c-8f57-cae55b38cc92");
}

#[test]
fn reports_each_kind_of_bad_link() {
    match extract_manga_id("not a link") {
        Err(AppError::InvalidInput(m)) => {
            assert_eq!(m, "expected a MangaDex title URL or manga UUID")
        }
        other => panic!("unexpected {other:?}"),
    }
    match extract_manga_id("https://example.com/title/x") {
        Err(AppError::InvalidInput(m)) => {
            assert_eq!(m, "expected mangadex.org URL, got host 'example.com'")
        }
        other => panic!("unexpected {other:?}"),
    }
    match extract_manga_id("https://www.mangadex.org/chapter/x") {
        Err(AppError::InvalidInput(m)) => assert_eq!(m, "expected URL path /title/{manga-id}/..."),
        other => panic!("unexpected {other:?}"),
    }
    assert!(matches!(
        extract_manga_id("https://mangadex.org/title/not-a-uuid"),
        Err(AppError::Uuid(_))
    ));
}

#[test]
fn title_segment_reads_the_segment_after_title() {
    let url = ParsedUrl {
        host: Some("www.mangadex.org".to_string()),
        path_segments: Some(vec![
            "x".to_string(),
            "title".to_string(),
            "id-1".to_string(),
            "title".to_string(),
            "id-2".to_string(),
        ]),
    };
    assert_eq!(title_segment(&url).unwrap(), "id-1");
    let no_host = ParsedUrl {
        host: None,
        path_segments: None,
    };
    match title_segment(&no_host) {
        Err(AppError::InvalidInput(m)) => assert_eq!(m, "expected mangadex.org URL, got host ''"),
        other => panic!("unexpected {other:?}"),
    }
    let last = ParsedUrl {
        host: Some("mangadex.org".to_string()),
        path_segments: Some(vec!["title".to_string()]),
    };
    assert!(title_segment(&last).is_err());
}
