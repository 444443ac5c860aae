use crate::scraper::anchors_rewritten;
use crate::scraper::extract_page;
use crate::scraper::process_html;
use crate::scraper::title_text_of;
use crate::scraper::wiki_content_of;
use crate::status::classify;
use crate::status::spec_classify;
use crate::status::PageCondition;
use vstd::prelude::*;

verus! {

/// The pipeline's sole output: the upstream page's title, the rewritten
/// markup of its wiki content, and its classification.
pub struct MirroredResult {
    pub original_title: String,
    pub rewritten_html: String,
    pub condition: PageCondition,
}

/// The canonical upstream address of a wiki resource; an absent page names
/// the wiki's root and leaves the last path segment empty.
pub open spec fn spec_wiki_url(
    account: Seq<char>,
    repository: Seq<char>,
    page: Option<Seq<char>>,
) -> Seq<char> {
    "https://github.com/"@ + account + "/"@ + repository + "/wiki/"@ + (match page {
        Some(p) => p,
        None => Seq::empty(),
    })
}

/// Builds the canonical upstream URL for (account, repository, page).
pub fn wiki_url(account: &str, repository: &str, page: Option<&str>) -> (r: String)
    ensures
        r@ == spec_wiki_url(
            account@,
            repository@,
            (match page {
                Some(p) => Some(p@),
                None => None,
            }),
        ),
{
    let mut out = String::from_str("https://github.com/");
    out.append(account);
    out.append("/");
    out.append(repository);
    out.append("/wiki/");
    match page {
        Some(p) => out.append(p),
        None => (),
    }
    proof {
        assert(out@ =~= spec_wiki_url(
            account@,
            repository@,
            (match page {
                Some(p) => Some(p@),
                None => None,
            }),
        ));
    }
    out
}

/// Turns one fetched document into the mirror's result: the title and the
/// wiki content container are extracted from the raw document, the title is
/// classified, and the link rewrite is applied to the extracted fragment
/// only — the title and the surrounding chrome are never rewritten.
pub fn mirror_document(raw_html: &str) -> (r: MirroredResult)
    ensures
        r.original_title@ == title_text_of(raw_html@),
        r.rewritten_html@ == anchors_rewritten(wiki_content_of(raw_html@)),
        r.condition == spec_classify(title_text_of(raw_html@)),
{
    let page = extract_page(raw_html);
    let condition = classify(page.original_title.as_str());
    let rewritten_html = process_html(page.html);
    MirroredResult { original_title: page.original_title, rewritten_html, condition }
}

/// Process-wide bookkeeping shared by every request: a best-effort request
/// counter and the single-fire shutdown flag.
pub struct MirrorStats {
    pub requests: u64,
    pub shutdown_requested: bool,
}

impl MirrorStats {
    /// Fresh bookkeeping: nothing counted, shutdown not requested.
    pub fn new() -> (s: MirrorStats)
        ensures
            s.requests == 0,
            !s.shutdown_requested,
    {
        MirrorStats { requests: 0, shutdown_requested: false }
    }

    /// Records one request and decides whether the shutdown coordinator must
    /// be signalled: exactly the first rate-limited result signals, later
    /// ones find the flag already set and stay silent. The counter is
    /// monotonic and saturates rather than wraps.
    pub fn record(&mut self, condition: PageCondition) -> (signal_now: bool)
        ensures
            final(self).requests == (if old(self).requests == u64::MAX {
                u64::MAX as u64
            } else {
                (old(self).requests + 1) as u64
            }),
            final(self).shutdown_requested == (old(self).shutdown_requested || condition
                == PageCondition::RateLimited),
            signal_now == (condition == PageCondition::RateLimited
                && !old(self).shutdown_requested),
    {
        if self.requests < u64::MAX {
            self.requests = self.requests + 1;
        }
        let rate_limited = condition == PageCondition::RateLimited;
        let signal_now = rate_limited && !self.shutdown_requested;
        if rate_limited {
            self.shutdown_requested = true;
        }
        signal_now
    }
}

} // verus!
