use congressional_graph::episode::Episode;
use congressional_graph::feed::{episode_from_parts, FeedItem, ScraperError};
use congressional_graph::site::{backward_links, pointers, scrape_links};

fn item(title: Option<&str>, date: Option<&str>, subtitle: Option<&str>) -> FeedItem {
    FeedItem {
        title: title.map(String::from),
        pub_date: date.map(String::from),
        subtitle: subtitle.map(String::from),
    }
}

#[test]
fn episode_read_from_feed_item() {
    let ep = Episode::try_from(item(
        Some("CD281: The Budget Debacle"),
        Some("Tue, 1 Jul 2003 10:52:37 +0200"),
        Some("A preview"),
    ))
    .ok()
    .unwrap();
    assert_eq!(ep.number, 281);
    assert_eq!(ep.slug, "CD-281");
    assert_eq!(ep.title, "The Budget Debacle");
    assert_eq!(ep.published_at, 1_057_049_557_000);
    assert_eq!(ep.preview.as_deref(), Some("A preview"));
}

#[test]
fn episode_title_with_dash_and_lower_case() {
    let ep = Episode::try_from(item(Some("cd-07 Small One"), Some("Mon, 2 Jan 2006 15:04:05 GMT"), None))
        .ok()
        .unwrap();
    assert_eq!(ep.number, 7);
    assert_eq!(ep.slug, "CD-07");
    assert_eq!(ep.title, "Small One");
    assert_eq!(ep.published_at, 1_136_214_245_000);
    assert!(ep.preview.is_none());
}

#[test]
fn missing_title_is_reported() {
    let err = Episode::try_from(item(None, Some("Mon, 2 Jan 2006 15:04:05 GMT"), None));
    assert!(matches!(err, Err(ScraperError::MissingTitle)));
}

#[test]
fn unexpected_title_is_reported() {
    match Episode::try_from(item(Some("Bonus: interview"), Some("Mon, 2 Jan 2006 15:04:05 GMT"), None)) {
        Err(ScraperError::TitleStructure(t)) => assert_eq!(t, "Bonus: interview"),
        _ => panic!("expected a title structure error"),
    }
}

#[test]
fn number_too_large_is_a_title_error() {
    let title = "CD99999999999999999999999: Huge";
    match Episode::try_from(item(Some(title), Some("Mon, 2 Jan 2006 15:04:05 GMT"), None)) {
        Err(ScraperError::TitleStructure(t)) => assert_eq!(t, title),
        _ => panic!("expected a title structure error"),
    }
}

#[test]
fn missing_or_bad_date_is_reported() {
    assert!(matches!(
        Episode::try_from(item(Some("CD1: First"), None, None)),
        Err(ScraperError::MissingPublishDate)
    ));
    assert!(matches!(
        Episode::try_from(item(Some("CD1: First"), Some("yesterday"), None)),
        Err(ScraperError::MissingPublishDate)
    ));
}

#[test]
fn parts_make_an_episode() {
    let ep = episode_from_parts(
        "CD12 Twelve".to_string(),
        Some(("12".to_string(), "Twelve".to_string())),
        Some(5),
        Some("p".to_string()),
    )
    .ok()
    .unwrap();
    assert_eq!((ep.number, ep.slug.as_str(), ep.title.as_str(), ep.published_at), (12, "CD-12", "Twelve", 5));
    assert!(matches!(
        episode_from_parts("x".to_string(), None, Some(5), None),
        Err(ScraperError::TitleStructure(_))
    ));
    assert!(matches!(
        episode_from_parts("x".to_string(), Some(("1".to_string(), "t".to_string())), None, None),
        Err(ScraperError::MissingPublishDate)
    ));
}

#[test]
fn error_messages() {
    assert_eq!(ScraperError::MissingTitle.message(), "Missing title");
    assert_eq!(ScraperError::MissingPublishDate.message(), "Missing date");
    assert_eq!(
        ScraperError::TitleStructure("odd".to_string()).message(),
        "Unexpected title structure: 'odd'"
    );
}

#[test]
fn links_scraped_from_page() {
    let html = r#"<html><body>
        <a href="https://congressionaldish.com/cd200-some-title/">one</a>
        <a rel="prev" href="https://congressionaldish.com/cd199-previous/">prev</a>
        <a href="https://www.congressionaldish.com/CD-150: x">two</a>
        <a href="https://congressionaldish.com/cd200-again/">dup</a>
        <a href="https://example.com/cd5-other/">elsewhere</a>
        <a>no href</a>
    </body></html>"#;
    let mut found = scrape_links(html);
    found.sort();
    assert_eq!(found, vec![150, 200]);
}

#[test]
fn pointers_skip_previous_and_missing_links() {
    let anchors = vec![
        (None, Some("https://congressionaldish.com/cd12/".to_string())),
        (Some("prev".to_string()), Some("https://congressionaldish.com/cd11/".to_string())),
        (Some("next".to_string()), Some("https://congressionaldish.com/CD-13?".to_string())),
        (None, None),
        (None, Some("https://congressionaldish.com/cd14".to_string())),
    ];
    let mut found = pointers(&anchors);
    found.sort();
    assert_eq!(found, vec![12, 13]);
}

#[test]
fn only_earlier_links_are_kept() {
    assert_eq!(backward_links(10, &vec![3, 10, 12, 9, 0]), vec![3, 9, 0]);
    assert!(backward_links(0, &vec![0, 1]).is_empty());
}
