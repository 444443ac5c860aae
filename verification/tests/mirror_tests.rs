use wiki_mirror::mirror::mirror_document;
use wiki_mirror::mirror::wiki_url;
use wiki_mirror::mirror::MirrorStats;
use wiki_mirror::status::classify;
use wiki_mirror::status::contains_sub;
use wiki_mirror::status::str_eq;
use wiki_mirror::status::PageCondition;

#[test]
fn classify_not_found() {
    assert_eq!(
        classify("Page not found · GitHub"),
        PageCondition::NotFound
    );
}

#[test]
fn classify_not_found_substring_anywhere() {
    assert_eq!(
        classify("prefix Page not found suffix"),
        PageCondition::NotFound
    );
}

#[test]
fn classify_rate_limited() {
    assert_eq!(classify("Rate limit · GitHub"), PageCondition::RateLimited);
}

#[test]
fn classify_rate_limit_must_match_exactly() {
    assert_eq!(
        classify("Rate limit · GitHub extra"),
        PageCondition::Normal
    );
}

#[test]
fn classify_normal() {
    assert_eq!(
        classify("Home · someone/repo Wiki · GitHub"),
        PageCondition::Normal
    );
}

#[test]
fn substring_and_equality_helpers() {
    assert!(contains_sub("abcdef", "cde"));
    assert!(!contains_sub("abcdef", "gh"));
    assert!(contains_sub("anything", ""));
    assert!(str_eq("same", "same"));
    assert!(!str_eq("same", "other"));
}

#[test]
fn wiki_url_with_page() {
    assert_eq!(
        wiki_url("acc", "repo", Some("Home")),
        "https://github.com/acc/repo/wiki/Home"
    );
}

#[test]
fn wiki_url_without_page() {
    assert_eq!(
        wiki_url("acc", "repo", None),
        "https://github.com/acc/repo/wiki/"
    );
}

#[test]
fn mirror_document_normal_page() {
    let html = "<html><head><title>Home · acc/repo Wiki · GitHub</title></head><body><div id=\"wiki-wrapper\"><a href=\"/acc/repo/wiki/Next\">Next</a></div></body></html>";
    let result = mirror_document(html);
    assert_eq!(result.original_title, "Home · acc/repo Wiki · GitHub");
    assert_eq!(result.condition, PageCondition::Normal);
    assert_eq!(
        result.rewritten_html,
        "<html><head></head><body><div id=\"wiki-wrapper\"><a href=\"/m/acc/repo/wiki/Next\">Next</a></div></body></html>"
    );
}

#[test]
fn mirror_document_not_found_page() {
    let html = "<html><head><title>Page not found · GitHub</title></head><body><div id=\"wiki-wrapper\"></div></body></html>";
    let result = mirror_document(html);
    assert_eq!(result.condition, PageCondition::NotFound);
}

#[test]
fn mirror_document_rate_limited_page() {
    let html = "<html><head><title>Rate limit · GitHub</title></head><body></body></html>";
    let result = mirror_document(html);
    assert_eq!(result.condition, PageCondition::RateLimited);
    assert_eq!(result.original_title, "Rate limit · GitHub");
}

#[test]
fn mirror_stats_counts_and_fires_once() {
    let mut stats = MirrorStats::new();
    assert_eq!(stats.requests, 0);
    assert!(!stats.shutdown_requested);

    assert!(!stats.record(PageCondition::Normal));
    assert!(!stats.record(PageCondition::NotFound));
    assert!(stats.record(PageCondition::RateLimited));
    assert!(!stats.record(PageCondition::RateLimited));
    assert!(!stats.record(PageCondition::Normal));

    assert_eq!(stats.requests, 5);
    assert!(stats.shutdown_requested);
}
