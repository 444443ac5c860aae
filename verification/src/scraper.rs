use vstd::prelude::*;

verus! {

/// A fetched page reduced to what the mirror needs: the document title and
/// the markup of the wiki content container.
pub struct HtmlWithInfo {
    pub original_title: String,
    pub html: String,
}

/// What a root-relative href becomes: prefixed with the mirror namespace
/// `/m`. Absolute (scheme-qualified) and relative hrefs are kept unchanged.
pub open spec fn spec_rewrite_href(h: Seq<char>) -> Seq<char> {
    if h.len() > 0 && h[0] == '/' {
        "/m"@ + h
    } else {
        h
    }
}

/// Rewrites one href value by the mirror rule `spec_rewrite_href`: only
/// values beginning with `/` change, and those only gain the `/m` prefix.
pub fn rewrite_href(href: &str) -> (r: String)
    ensures
        r@ == spec_rewrite_href(href@),
{
    let len: usize = href.unicode_len();
    if len > 0 && href.get_char(0) == '/' {
        let mut out = String::from_str("/m");
        out.append(href);
        out
    } else {
        href.to_owned()
    }
}

/// Applying the rewrite twice is not the same as applying it once: a
/// root-relative href gains the namespace prefix again on every pass. The
/// rewrite is therefore applied exactly once per fetched document.
pub proof fn lemma_rewrite_href_not_idempotent(h: Seq<char>)
    requires
        h.len() > 0,
        h[0] == '/',
    ensures
        spec_rewrite_href(spec_rewrite_href(h)) != spec_rewrite_href(h),
{
    reveal_strlit("/m");
    assert(spec_rewrite_href(h).len() == h.len() + 2);
    assert(spec_rewrite_href(h)[0] == '/');
    assert(spec_rewrite_href(spec_rewrite_href(h)).len() == h.len() + 4);
}

/// A href that is not root-relative passes through the rewrite unchanged,
/// however often it is applied.
pub proof fn lemma_rewrite_href_foreign_unchanged(h: Seq<char>)
    requires
        h.len() == 0 || h[0] != '/',
    ensures
        spec_rewrite_href(h) == h,
{
}

/// The serialized document that nipper produces from `html` after every
/// anchor's href has been passed through the mirror rewrite rule.
pub uninterp spec fn anchors_rewritten(html: Seq<char>) -> Seq<char>;

/// The text of the document's `title` element, as nipper extracts it; empty
/// when the document has none.
pub uninterp spec fn title_text_of(html: Seq<char>) -> Seq<char>;

/// The markup of the document's wiki content container, as nipper extracts
/// it; empty when the document has none.
pub uninterp spec fn wiki_content_of(html: Seq<char>) -> Seq<char>;

/// Relies on nipper (Document::from, select("a"), Selection::attr/set_attr,
/// Document::html): parses `html` leniently, replaces every anchor's href by
/// what the verified `rewrite_href` returns for it, and serializes the
/// document again; the result is a function of `html` alone.
#[verifier::external_body]
fn rewrite_anchor_hrefs(html: &str) -> (r: String)
    ensures
        r@ == anchors_rewritten(html@),
{
    let document = nipper::Document::from(html);
    document.select("a").iter().for_each(|mut anchor| {
        if let Some(href) = anchor.attr("href") {
            let rewritten = rewrite_href(String::from(href).as_str());
            anchor.set_attr("href", rewritten.as_str());
        }
    });
    String::from(document.html())
}

/// Relies on nipper (Document::from, select("title"), Selection::text):
/// parses `html` leniently and returns the title element's text, empty when
/// no title matches; the result is a function of `html` alone.
#[verifier::external_body]
fn select_title_text(html: &str) -> (r: String)
    ensures
        r@ == title_text_of(html@),
{
    let document = nipper::Document::from(html);
    String::from(document.select("title").text())
}

/// Relies on nipper (Document::from, select("#wiki-wrapper"),
/// Selection::html): parses `html` leniently and returns the markup of the
/// wiki content container, empty when no element matches; the result is a
/// function of `html` alone.
#[verifier::external_body]
fn select_wiki_content(html: &str) -> (r: String)
    ensures
        r@ == wiki_content_of(html@),
{
    let document = nipper::Document::from(html);
    String::from(document.select("#wiki-wrapper").html())
}

/// Rewrites every anchor href in the document by the mirror rule: values
/// beginning with `/` gain the `/m` prefix, all other markup is left to the
/// parser's lenient parse-and-serialize round trip.
pub fn process_html(original_html: String) -> (r: String)
    ensures
        r@ == anchors_rewritten(original_html@),
{
    rewrite_anchor_hrefs(original_html.as_str())
}

/// Reduces a fetched document to its title text and the markup of its wiki
/// content container.
pub fn extract_page(raw_html: &str) -> (r: HtmlWithInfo)
    ensures
        r.original_title@ == title_text_of(raw_html@),
        r.html@ == wiki_content_of(raw_html@),
{
    HtmlWithInfo {
        original_title: select_title_text(raw_html),
        html: select_wiki_content(raw_html),
    }
}

} // verus!
