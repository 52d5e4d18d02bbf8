use acerola_mangadex::data::MangaAttributes;
use acerola_mangadex::domain::language::{parse_language, supported_languages, Language};
use acerola_mangadex::domain::title::choose_manga_title;
use acerola_mangadex::infra::rate_limit::RateWindow;
use acerola_mangadex::infra::{AppConfig, AppError, MangaDexConfig};

fn attributes(pairs: &[(&str, &str)]) -> MangaAttributes {
    MangaAttributes {
        title: pairs
            .iter()
            .map(|(k, v)| (k.to_string(), v.to_string()))
            .collect(),
    }
}

#[test]
fn chooses_titles_by_language_preference() {
    assert_eq!(
        choose_manga_title(&attributes(&[("ja", "ベルセルク"), ("en", " Berserk ")])),
        "Berserk"
    );
    assert_eq!(
        choose_manga_title(&attributes(&[("en", "  "), ("ja-ro", "Beruseruku")])),
        "Beruseruku"
    );
    assert_eq!(
        choose_manga_title(&attributes(&[("fr", " "), ("de", " Der Titel ")])),
        "Der Titel"
    );
    assert_eq!(choose_manga_title(&attributes(&[("fr", " ")])), "Unknown Manga");
}

#[test]
fn parses_languages() {
    assert_eq!(parse_language(" PT-BR ").unwrap(), Language::PortugueseBrazil);
    assert_eq!(
        parse_language("Portuguese (Brazil)").unwrap(),
        Language::PortugueseBrazil
    );
    match parse_language("en") {
        Err(AppError::InvalidInput(m)) => {
            assert_eq!(m, "unsupported language 'en'. Currently supported: pt-br")
        }
        other => panic!("unexpected {other:?}"),
    }
    assert_eq!(supported_languages(), vec![Language::PortugueseBrazil]);
    assert_eq!(Language::PortugueseBrazil.code(), "pt-br");
    assert_eq!(Language::PortugueseBrazil.label(), "Portuguese (Brazil)");
}

#[test]
fn default_configuration_is_conservative() {
    let config = MangaDexConfig::default();
    assert_eq!(config.api_base_url, "https://api.mangadex.org");
    assert_eq!(config.upload_base_url, "https://uploads.mangadex.org");
    assert_eq!(config.max_retries, 5);
    assert_eq!(config.feed_page_limit, 100);
    assert_eq!(config.collection_hard_offset_limit, 10_000);
    assert_eq!(config.at_home_min_interval_ms, 1_600);
    assert_eq!(AppConfig::default().mangadex.request_timeout_ms, 30_000);
}

#[test]
fn waits_between_two_consecutive_slots_of_the_window() {
    let mut window = RateWindow::new(25_000_000);
    assert_eq!(window.delay_before(0), 0);
    window.release(1_000);
    assert_eq!(window.delay_before(6_000_000), 19_001_000);
    assert_eq!(window.delay_before(30_000_000), 0);
}

#[test]
fn the_application_default_keeps_timeouts_and_request_gaps() {
    let c = AppConfig::default().mangadex;
    assert_eq!(c.api_base_url, "https://api.mangadex.org");
    assert_eq!(c.upload_base_url, "https://uploads.mangadex.org");
    assert_eq!(c.user_agent, "acerola-mangadex/0.1.0 (Rust CLI downloader)");
    assert_eq!(c.request_timeout_ms, 30_000);
    assert_eq!(c.image_request_timeout_ms, 60_000);
    assert_eq!(c.api_min_interval_ms, 250);
    assert_eq!(c.at_home_min_interval_ms, 1_600);
    assert_eq!(c.image_min_interval_ms, 100);
    assert_eq!(c.max_retries, 5);
    assert_eq!(c.feed_page_limit, 100);
    assert_eq!(c.collection_hard_offset_limit, 10_000);
}
