use wiki_mirror::scraper::extract_page;
use wiki_mirror::scraper::process_html;
use wiki_mirror::scraper::rewrite_href;

#[test]
fn transform_urls_to_new_root() {
    let html = "<html><head></head><body><a href=\"/\"></a></body></html>";

    assert_eq!(
        process_html(html.to_string()),
        "<html><head></head><body><a href=\"/m/\"></a></body></html>"
    );
}

#[test]
fn foreign_hrefs_untouched() {
    let html = "<html><head></head><body><a href=\"https://example.com/x\">a</a><a href=\"rel/path\">b</a></body></html>";
    assert_eq!(process_html(html.to_string()), html);
}

#[test]
fn non_anchor_markup_preserved() {
    let html = "<html><head></head><body><div class=\"c\"><p>text</p><a href=\"/w\">w</a></div></body></html>";
    assert_eq!(
        process_html(html.to_string()),
        "<html><head></head><body><div class=\"c\"><p>text</p><a href=\"/m/w\">w</a></div></body></html>"
    );
}

#[test]
fn rewrite_is_not_idempotent() {
    let html = "<html><head></head><body><a href=\"/\"></a></body></html>".to_string();
    let once = process_html(html);
    let twice = process_html(once.clone());
    assert_ne!(once, twice);
    assert_eq!(
        twice,
        "<html><head></head><body><a href=\"/m/m/\"></a></body></html>"
    );
}

#[test]
fn rewrite_href_rules() {
    assert_eq!(rewrite_href("/"), "/m/");
    assert_eq!(rewrite_href("/wiki/Home"), "/m/wiki/Home");
    assert_eq!(rewrite_href("https://example.com/"), "https://example.com/");
    assert_eq!(rewrite_href("relative/path"), "relative/path");
    assert_eq!(rewrite_href(""), "");
}

#[test]
fn extract_page_reads_title_and_container() {
    let html = "<html><head><title>My Wiki Page</title></head><body><nav>chrome</nav><div id=\"wiki-wrapper\"><a href=\"/x\">x</a></div></body></html>";
    let info = extract_page(html);
    assert_eq!(info.original_title, "My Wiki Page");
    assert_eq!(info.html, "<div id=\"wiki-wrapper\"><a href=\"/x\">x</a></div>");
}

#[test]
fn extract_page_missing_elements_give_empty_strings() {
    let html = "<html><head></head><body><p>no title, no container</p></body></html>";
    let info = extract_page(html);
    assert_eq!(info.original_title, "");
    assert_eq!(info.html, "");
}
