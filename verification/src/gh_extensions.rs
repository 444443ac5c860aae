use vstd::prelude::*;

verus! {

// ---------------------------------------------------------------------------
// The bracket grammar of the wiki dialect, as spec functions.
//
// Two forms are recognised, both written `[[ ... | ... ]]` on a single line:
//   - the image form, whose left side ends in an image file extension, and
//   - the link form, everything else.
// Image forms are rewritten first, link forms second.
// ---------------------------------------------------------------------------

/// `c` is the letter given in lower case `lo` or upper case `up`.
pub open spec fn eq_ci(c: char, lo: char, up: char) -> bool {
    c == lo || c == up
}

/// `u` ends in `.` followed by the three letters, compared case-insensitively.
pub open spec fn ends_dot3(
    u: Seq<char>,
    a_lo: char,
    a_up: char,
    b_lo: char,
    b_up: char,
    c_lo: char,
    c_up: char,
) -> bool {
    let n = u.len() as int;
    n >= 4 && u[n - 4] == '.' && eq_ci(u[n - 3], a_lo, a_up) && eq_ci(u[n - 2], b_lo, b_up)
        && eq_ci(u[n - 1], c_lo, c_up)
}

/// `u` ends in `.jpeg`, compared case-insensitively.
pub open spec fn ends_dot_jpeg(u: Seq<char>) -> bool {
    let n = u.len() as int;
    n >= 5 && u[n - 5] == '.' && eq_ci(u[n - 4], 'j', 'J') && eq_ci(u[n - 3], 'p', 'P') && eq_ci(
        u[n - 2],
        'e',
        'E',
    ) && eq_ci(u[n - 1], 'g', 'G')
}

/// `u` ends in one of the image extensions `.jpg`, `.jpeg`, `.png`, `.gif`;
/// only the extension is compared case-insensitively.
pub open spec fn has_image_ext(u: Seq<char>) -> bool {
    ||| ends_dot3(u, 'j', 'J', 'p', 'P', 'g', 'G')
    ||| ends_dot_jpeg(u)
    ||| ends_dot3(u, 'p', 'P', 'n', 'N', 'g', 'G')
    ||| ends_dot3(u, 'g', 'G', 'i', 'I', 'f', 'F')
}

/// First position `j' >= j` holding a `|` such that the candidate image url
/// `s[ustart..j']` ends in an image extension. The search gives up at a
/// newline, at a closing `]]` or at the end of the text: neither side of a
/// form may cross a line, and a form never absorbs an adjacent sibling by
/// reading past the sibling's closing bracket.
pub open spec fn find_img_pipe(s: Seq<char>, ustart: int, j: int) -> Option<int>
    decreases s.len() - j,
{
    if j < 0 || j >= s.len() {
        None
    } else if s[j] == '\n' {
        None
    } else if j + 1 < s.len() && s[j] == ']' && s[j + 1] == ']' {
        None
    } else if s[j] == '|' && has_image_ext(s.subrange(ustart, j)) {
        Some(j)
    } else {
        find_img_pipe(s, ustart, j + 1)
    }
}

/// First position `j' >= j` holding a `|`; the search gives up at a newline
/// or at a closing `]]`, so a form never absorbs an adjacent sibling.
pub open spec fn find_pipe(s: Seq<char>, j: int) -> Option<int>
    decreases s.len() - j,
{
    if j < 0 || j >= s.len() {
        None
    } else if s[j] == '\n' {
        None
    } else if j + 1 < s.len() && s[j] == ']' && s[j + 1] == ']' {
        None
    } else if s[j] == '|' {
        Some(j)
    } else {
        find_pipe(s, j + 1)
    }
}

/// First position `j' >= j` where `]]` begins; the search gives up at a
/// newline.
pub open spec fn find_close(s: Seq<char>, j: int) -> Option<int>
    decreases s.len() - j,
{
    if j < 0 || j + 2 > s.len() {
        None
    } else if s[j] == ']' && s[j + 1] == ']' {
        Some(j)
    } else if s[j] == '\n' {
        None
    } else {
        find_close(s, j + 1)
    }
}

/// Position of the first character at or after `j` that is not a space.
pub open spec fn skip_spaces(s: Seq<char>, j: int) -> int
    decreases s.len() - j,
{
    if 0 <= j < s.len() && s[j] == ' ' {
        skip_spaces(s, j + 1)
    } else {
        j
    }
}

/// Position where `s[lo..j]` ends once its trailing spaces are stripped,
/// never before `lo`.
pub open spec fn skip_spaces_back(s: Seq<char>, lo: int, j: int) -> int
    decreases j - lo,
{
    if lo < j <= s.len() && s[j - 1] == ' ' {
        skip_spaces_back(s, lo, j - 1)
    } else {
        j
    }
}

/// An image form beginning at `i`: `Some((p, e))` gives the position of the
/// `|` and the position of the closing `]]`; the alt text is everything
/// between them, kept verbatim.
pub open spec fn img_match_at(s: Seq<char>, i: int) -> Option<(int, int)> {
    if 0 <= i && i + 2 <= s.len() && s[i] == '[' && s[i + 1] == '[' {
        match find_img_pipe(s, i + 2, i + 2) {
            Some(p) => {
                match find_close(s, p + 1) {
                    Some(e) => Some((p, e)),
                    None => None,
                }
            },
            None => None,
        }
    } else {
        None
    }
}

/// A link form beginning at `i`: `Some((p, bstart, e))` gives the position of
/// the `|`, the start of the page name (after any padding spaces) and the
/// position of the closing `]]`; the page name is what stands between
/// `bstart` and the `]]` with its trailing padding spaces stripped.
pub open spec fn link_match_at(s: Seq<char>, i: int) -> Option<(int, int, int)> {
    if 0 <= i && i + 2 <= s.len() && s[i] == '[' && s[i + 1] == '[' {
        match find_pipe(s, i + 2) {
            Some(p) => {
                let bstart = skip_spaces(s, p + 1);
                match find_close(s, bstart) {
                    Some(e) => Some((p, bstart, e)),
                    None => None,
                }
            },
            None => None,
        }
    } else {
        None
    }
}

/// The markdown image reference an image form is rewritten to: the alt text
/// becomes the caption, and the root-relative image url is re-rooted under
/// the raw-content host in the repository's wiki namespace.
pub open spec fn image_markdown(
    url: Seq<char>,
    alt: Seq<char>,
    account: Seq<char>,
    repo: Seq<char>,
) -> Seq<char> {
    "!["@ + alt + "](https://raw.githubusercontent.com/wiki/"@ + account + "/"@ + repo + url
        + ")"@
}

/// The markdown link a link form is rewritten to: the page name is placed
/// under the account's and repository's wiki path.
pub open spec fn link_markdown(
    text: Seq<char>,
    page: Seq<char>,
    account: Seq<char>,
    repo: Seq<char>,
) -> Seq<char> {
    "["@ + text + "](/"@ + account + "/"@ + repo + "/wiki/"@ + page + ")"@
}

// ---------------------------------------------------------------------------
// Bounds of the spec searches, needed for termination of the passes and for
// the laws below.
// ---------------------------------------------------------------------------

pub proof fn lemma_find_img_pipe_some(s: Seq<char>, ustart: int, j: int)
    ensures
        find_img_pipe(s, ustart, j) matches Some(p) ==> j <= p < s.len() && s[p] == '|',
    decreases s.len() - j,
{
    if 0 <= j < s.len() && s[j] != '\n' && !(j + 1 < s.len() && s[j] == ']' && s[j + 1] == ']')
        && !(s[j] == '|' && has_image_ext(s.subrange(ustart, j))) {
        lemma_find_img_pipe_some(s, ustart, j + 1);
    }
}

pub proof fn lemma_find_pipe_some(s: Seq<char>, j: int)
    ensures
        find_pipe(s, j) matches Some(p) ==> j <= p < s.len() && s[p] == '|',
    decreases s.len() - j,
{
    if 0 <= j < s.len() && s[j] != '\n' && !(j + 1 < s.len() && s[j] == ']' && s[j + 1] == ']')
        && s[j] != '|' {
        lemma_find_pipe_some(s, j + 1);
    }
}

pub proof fn lemma_find_close_some(s: Seq<char>, j: int)
    ensures
        find_close(s, j) matches Some(e) ==> j <= e && e + 2 <= s.len() && s[e] == ']' && s[e + 1]
            == ']',
    decreases s.len() - j,
{
    if 0 <= j && j + 2 <= s.len() && !(s[j] == ']' && s[j + 1] == ']') && s[j] != '\n' {
        lemma_find_close_some(s, j + 1);
    }
}

pub proof fn lemma_skip_spaces_bounds(s: Seq<char>, j: int)
    requires
        0 <= j <= s.len(),
    ensures
        j <= skip_spaces(s, j) <= s.len(),
    decreases s.len() - j,
{
    if j < s.len() && s[j] == ' ' {
        lemma_skip_spaces_bounds(s, j + 1);
    }
}

pub proof fn lemma_skip_spaces_back_bounds(s: Seq<char>, lo: int, j: int)
    requires
        0 <= lo <= j <= s.len(),
    ensures
        lo <= skip_spaces_back(s, lo, j) <= j,
    decreases j - lo,
{
    if lo < j && s[j - 1] == ' ' {
        lemma_skip_spaces_back_bounds(s, lo, j - 1);
    }
}

pub proof fn lemma_img_match_at_some(s: Seq<char>, i: int)
    ensures
        img_match_at(s, i) matches Some(m) ==> {
            &&& i + 2 <= m.0 < s.len()
            &&& m.0 < m.1
            &&& m.1 + 2 <= s.len()
        },
{
    if 0 <= i && i + 2 <= s.len() && s[i] == '[' && s[i + 1] == '[' {
        lemma_find_img_pipe_some(s, i + 2, i + 2);
        if let Some(p) = find_img_pipe(s, i + 2, i + 2) {
            lemma_find_close_some(s, p + 1);
        }
    }
}

pub proof fn lemma_link_match_at_some(s: Seq<char>, i: int)
    ensures
        link_match_at(s, i) matches Some(m) ==> {
            &&& i + 2 <= m.0 < s.len()
            &&& m.0 < m.1 <= m.2
            &&& m.2 + 2 <= s.len()
        },
{
    if 0 <= i && i + 2 <= s.len() && s[i] == '[' && s[i + 1] == '[' {
        lemma_find_pipe_some(s, i + 2);
        if let Some(p) = find_pipe(s, i + 2) {
            lemma_skip_spaces_bounds(s, p + 1);
            let bstart = skip_spaces(s, p + 1);
            lemma_find_close_some(s, bstart);
        }
    }
}

// ---------------------------------------------------------------------------
// The two passes, as spec functions over the remaining text.
// ---------------------------------------------------------------------------

/// The image pass over `s[i..]`: each image form is replaced by its markdown
/// image reference, text between and around matches is kept unchanged, and
/// scanning resumes right after each replaced form.
pub open spec fn image_pass_from(
    s: Seq<char>,
    i: int,
    account: Seq<char>,
    repo: Seq<char>,
) -> Seq<char>
    decreases s.len() - i,
{
    if i < 0 || i >= s.len() {
        Seq::empty()
    } else {
        match img_match_at(s, i) {
            Some(m) => {
                proof {
                    lemma_img_match_at_some(s, i);
                }
                image_markdown(s.subrange(i + 2, m.0), s.subrange(m.0 + 1, m.1), account, repo)
                    + image_pass_from(s, m.1 + 2, account, repo)
            },
            None => seq![s[i]] + image_pass_from(s, i + 1, account, repo),
        }
    }
}

/// The link pass over `s[i..]`: each remaining bracket form is replaced by a
/// markdown link, with the padding spaces around the page name stripped.
pub open spec fn link_pass_from(
    s: Seq<char>,
    i: int,
    account: Seq<char>,
    repo: Seq<char>,
) -> Seq<char>
    decreases s.len() - i,
{
    if i < 0 || i >= s.len() {
        Seq::empty()
    } else {
        match link_match_at(s, i) {
            Some(m) => {
                proof {
                    lemma_link_match_at_some(s, i);
                }
                link_markdown(
                    s.subrange(i + 2, m.0),
                    s.subrange(m.1, skip_spaces_back(s, m.1, m.2)),
                    account,
                    repo,
                ) + link_pass_from(s, m.2 + 2, account, repo)
            },
            None => seq![s[i]] + link_pass_from(s, i + 1, account, repo),
        }
    }
}

/// The whole conversion: the image pass first, the link pass on its result.
pub open spec fn spec_convert(md: Seq<char>, account: Seq<char>, repo: Seq<char>) -> Seq<char> {
    link_pass_from(image_pass_from(md, 0, account, repo), 0, account, repo)
}

// ---------------------------------------------------------------------------
// The executable searches, each verified against its spec counterpart.
// ---------------------------------------------------------------------------

/// Decides `has_image_ext` on `s[lo..hi]`.
fn ext_at(s: &str, s_len: usize, lo: usize, hi: usize) -> (b: bool)
    requires
        s_len == s@.len(),
        lo <= hi <= s_len,
    ensures
        b == has_image_ext(s@.subrange(lo as int, hi as int)),
{
    let ghost u = s@.subrange(lo as int, hi as int);
    let n: usize = hi - lo;
    if n < 4 {
        return false;
    }
    let d3 = s.get_char(hi - 4);
    let c2 = s.get_char(hi - 3);
    let c1 = s.get_char(hi - 2);
    let c0 = s.get_char(hi - 1);
    proof {
        assert(u[n - 4] == s@[hi - 4]);
        assert(u[n - 3] == s@[hi - 3]);
        assert(u[n - 2] == s@[hi - 2]);
        assert(u[n - 1] == s@[hi - 1]);
    }
    let jpg = d3 == '.' && (c2 == 'j' || c2 == 'J') && (c1 == 'p' || c1 == 'P') && (c0 == 'g' || c0
        == 'G');
    let png = d3 == '.' && (c2 == 'p' || c2 == 'P') && (c1 == 'n' || c1 == 'N') && (c0 == 'g' || c0
        == 'G');
    let gif = d3 == '.' && (c2 == 'g' || c2 == 'G') && (c1 == 'i' || c1 == 'I') && (c0 == 'f' || c0
        == 'F');
    let jpeg = if n >= 5 {
        let d4 = s.get_char(hi - 5);
        proof {
            assert(u[n - 5] == s@[hi - 5]);
        }
        d4 == '.' && (d3 == 'j' || d3 == 'J') && (c2 == 'p' || c2 == 'P') && (c1 == 'e' || c1
            == 'E') && (c0 == 'g' || c0 == 'G')
    } else {
        false
    };
    jpg || jpeg || png || gif
}

/// Finds the pipe of an image form, as `find_img_pipe` does.
fn find_img_pipe_exec(s: &str, s_len: usize, ustart: usize, j0: usize) -> (r: Option<usize>)
    requires
        s_len == s@.len(),
        ustart <= j0 <= s_len,
    ensures
        match r {
            Some(p) => find_img_pipe(s@, ustart as int, j0 as int) == Some(p as int) && j0 <= p
                < s_len,
            None => find_img_pipe(s@, ustart as int, j0 as int) is None,
        },
{
    let mut j: usize = j0;
    while j < s_len
        invariant
            s_len == s@.len(),
            ustart <= j0 <= j <= s_len,
            find_img_pipe(s@, ustart as int, j0 as int) == find_img_pipe(
                s@,
                ustart as int,
                j as int,
            ),
        decreases s_len - j,
    {
        let c = s.get_char(j);
        if c == '\n' {
            return None;
        }
        if c == ']' && j + 1 < s_len && s.get_char(j + 1) == ']' {
            return None;
        }
        if c == '|' && ext_at(s, s_len, ustart, j) {
            return Some(j);
        }
        j += 1;
    }
    None
}

/// Finds the pipe of a link form, as `find_pipe` does.
fn find_pipe_exec(s: &str, s_len: usize, j0: usize) -> (r: Option<usize>)
    requires
        s_len == s@.len(),
        j0 <= s_len,
    ensures
        match r {
            Some(p) => find_pipe(s@, j0 as int) == Some(p as int) && j0 <= p < s_len,
            None => find_pipe(s@, j0 as int) is None,
        },
{
    let mut j: usize = j0;
    while j < s_len
        invariant
            s_len == s@.len(),
            j0 <= j <= s_len,
            find_pipe(s@, j0 as int) == find_pipe(s@, j as int),
        decreases s_len - j,
    {
        let c = s.get_char(j);
        if c == '\n' {
            return None;
        }
        if c == ']' && j + 1 < s_len && s.get_char(j + 1) == ']' {
            return None;
        }
        if c == '|' {
            return Some(j);
        }
        j += 1;
    }
    None
}

/// Finds the closing `]]`, as `find_close` does.
fn find_close_exec(s: &str, s_len: usize, j0: usize) -> (r: Option<usize>)
    requires
        s_len == s@.len(),
        j0 <= s_len,
    ensures
        match r {
            Some(e) => find_close(s@, j0 as int) == Some(e as int) && j0 <= e && e + 2 <= s_len,
            None => find_close(s@, j0 as int) is None,
        },
{
    let mut j: usize = j0;
    while j < s_len && j + 1 < s_len
        invariant
            s_len == s@.len(),
            j0 <= j <= s_len,
            find_close(s@, j0 as int) == find_close(s@, j as int),
        decreases s_len - j,
    {
        let c = s.get_char(j);
        if c == ']' && s.get_char(j + 1) == ']' {
            return Some(j);
        }
        if c == '\n' {
            return None;
        }
        j += 1;
    }
    None
}

/// Strips trailing padding spaces, as `skip_spaces_back` does.
fn skip_spaces_back_exec(s: &str, s_len: usize, lo: usize, j0: usize) -> (r: usize)
    requires
        s_len == s@.len(),
        lo <= j0 <= s_len,
    ensures
        r as int == skip_spaces_back(s@, lo as int, j0 as int),
        lo <= r <= j0,
{
    let mut j: usize = j0;
    while j > lo && s.get_char(j - 1) == ' '
        invariant
            s_len == s@.len(),
            lo <= j <= j0 <= s_len,
            skip_spaces_back(s@, lo as int, j0 as int) == skip_spaces_back(
                s@,
                lo as int,
                j as int,
            ),
        decreases j,
    {
        j -= 1;
    }
    j
}

/// Skips padding spaces, as `skip_spaces` does.
fn skip_spaces_exec(s: &str, s_len: usize, j0: usize) -> (r: usize)
    requires
        s_len == s@.len(),
        j0 <= s_len,
    ensures
        r as int == skip_spaces(s@, j0 as int),
        j0 <= r <= s_len,
{
    let mut j: usize = j0;
    while j < s_len && s.get_char(j) == ' '
        invariant
            s_len == s@.len(),
            j0 <= j <= s_len,
            skip_spaces(s@, j0 as int) == skip_spaces(s@, j as int),
        decreases s_len - j,
    {
        j += 1;
    }
    j
}

/// Matches an image form beginning at `i`, as `img_match_at` does.
fn img_match_at_exec(s: &str, s_len: usize, i: usize) -> (r: Option<(usize, usize)>)
    requires
        s_len == s@.len(),
        i <= s_len,
    ensures
        match r {
            Some(m) => {
                &&& img_match_at(s@, i as int) == Some((m.0 as int, m.1 as int))
                &&& i + 2 <= m.0 < s_len
                &&& m.0 < m.1
                &&& m.1 + 2 <= s_len
            },
            None => img_match_at(s@, i as int) is None,
        },
{
    if s_len < 2 || i > s_len - 2 {
        return None;
    }
    if s.get_char(i) != '[' || s.get_char(i + 1) != '[' {
        return None;
    }
    let p = match find_img_pipe_exec(s, s_len, i + 2, i + 2) {
        Some(p) => p,
        None => {
            return None;
        },
    };
    let e = match find_close_exec(s, s_len, p + 1) {
        Some(e) => e,
        None => {
            return None;
        },
    };
    Some((p, e))
}

/// Matches a link form beginning at `i`, as `link_match_at` does.
fn link_match_at_exec(s: &str, s_len: usize, i: usize) -> (r: Option<(usize, usize, usize)>)
    requires
        s_len == s@.len(),
        i <= s_len,
    ensures
        match r {
            Some(m) => {
                &&& link_match_at(s@, i as int) == Some((m.0 as int, m.1 as int, m.2 as int))
                &&& i + 2 <= m.0 < s_len
                &&& m.0 < m.1 <= m.2
                &&& m.2 + 2 <= s_len
            },
            None => link_match_at(s@, i as int) is None,
        },
{
    if s_len < 2 || i > s_len - 2 {
        return None;
    }
    if s.get_char(i) != '[' || s.get_char(i + 1) != '[' {
        return None;
    }
    let p = match find_pipe_exec(s, s_len, i + 2) {
        Some(p) => p,
        None => {
            return None;
        },
    };
    let bstart = skip_spaces_exec(s, s_len, p + 1);
    let e = match find_close_exec(s, s_len, bstart) {
        Some(e) => e,
        None => {
            return None;
        },
    };
    Some((p, bstart, e))
}

// ---------------------------------------------------------------------------
// The executable passes.
// ---------------------------------------------------------------------------

/// Runs the image pass over `s`.
#[verifier::rlimit(60)]
fn image_pass_exec(s: &str, account: &str, repo: &str) -> (out: String)
    ensures
        out@ == image_pass_from(s@, 0, account@, repo@),
{
    let s_len: usize = s.unicode_len();
    let mut out = String::new();
    let mut run: usize = 0;
    let mut i: usize = 0;
    while i < s_len
        invariant
            s_len == s@.len(),
            run <= i <= s_len,
            image_pass_from(s@, 0, account@, repo@) == out@ + s@.subrange(run as int, i as int)
                + image_pass_from(s@, i as int, account@, repo@),
        decreases s_len - i,
    {
        match img_match_at_exec(s, s_len, i) {
            Some(m) => {
                let (p, e) = m;
                let ghost out0 = out@;
                out.append(s.substring_char(run, i));
                out.append("![");
                out.append(s.substring_char(p + 1, e));
                out.append("](https://raw.githubusercontent.com/wiki/");
                out.append(account);
                out.append("/");
                out.append(repo);
                out.append(s.substring_char(i + 2, p));
                out.append(")");
                proof {
                    let url = s@.subrange(i as int + 2, p as int);
                    let alt = s@.subrange(p as int + 1, e as int);
                    assert(out@ =~= out0 + s@.subrange(run as int, i as int) + image_markdown(
                        url,
                        alt,
                        account@,
                        repo@,
                    ));
                    assert(image_pass_from(s@, i as int, account@, repo@) == image_markdown(
                        url,
                        alt,
                        account@,
                        repo@,
                    ) + image_pass_from(s@, e as int + 2, account@, repo@));
                    assert(s@.subrange(e as int + 2, e as int + 2) =~= Seq::<char>::empty());
                }
                i = e + 2;
                run = i;
            },
            None => {
                proof {
                    assert(s@.subrange(run as int, i as int) + seq![s@[i as int]] =~= s@.subrange(
                        run as int,
                        i as int + 1,
                    ));
                }
                i += 1;
            },
        }
    }
    out.append(s.substring_char(run, s_len));
    proof {
        assert(image_pass_from(s@, 0, account@, repo@) =~= out@);
    }
    out
}

/// Runs the link pass over `s`.
#[verifier::rlimit(60)]
fn link_pass_exec(s: &str, account: &str, repo: &str) -> (out: String)
    ensures
        out@ == link_pass_from(s@, 0, account@, repo@),
{
    let s_len: usize = s.unicode_len();
    let mut out = String::new();
    let mut run: usize = 0;
    let mut i: usize = 0;
    while i < s_len
        invariant
            s_len == s@.len(),
            run <= i <= s_len,
            link_pass_from(s@, 0, account@, repo@) == out@ + s@.subrange(run as int, i as int)
                + link_pass_from(s@, i as int, account@, repo@),
        decreases s_len - i,
    {
        match link_match_at_exec(s, s_len, i) {
            Some(m) => {
                let (p, bstart, e) = m;
                let bend = skip_spaces_back_exec(s, s_len, bstart, e);
                let ghost out0 = out@;
                out.append(s.substring_char(run, i));
                out.append("[");
                out.append(s.substring_char(i + 2, p));
                out.append("](/");
                out.append(account);
                out.append("/");
                out.append(repo);
                out.append("/wiki/");
                out.append(s.substring_char(bstart, bend));
                out.append(")");
                proof {
                    let text = s@.subrange(i as int + 2, p as int);
                    let page = s@.subrange(bstart as int, bend as int);
                    assert(out@ =~= out0 + s@.subrange(run as int, i as int) + link_markdown(
                        text,
                        page,
                        account@,
                        repo@,
                    ));
                    assert(link_pass_from(s@, i as int, account@, repo@) == link_markdown(
                        text,
                        page,
                        account@,
                        repo@,
                    ) + link_pass_from(s@, e as int + 2, account@, repo@));
                    assert(s@.subrange(e as int + 2, e as int + 2) =~= Seq::<char>::empty());
                }
                i = e + 2;
                run = i;
            },
            None => {
                proof {
                    assert(s@.subrange(run as int, i as int) + seq![s@[i as int]] =~= s@.subrange(
                        run as int,
                        i as int + 1,
                    ));
                }
                i += 1;
            },
        }
    }
    out.append(s.substring_char(run, s_len));
    proof {
        assert(link_pass_from(s@, 0, account@, repo@) =~= out@);
    }
    out
}

// ---------------------------------------------------------------------------
// Laws of the conversion.
// ---------------------------------------------------------------------------

/// No character of `s` is `c`.
pub open spec fn lacks(s: Seq<char>, c: char) -> bool {
    forall|k: int| 0 <= k < s.len() ==> #[trigger] s[k] != c
}

pub proof fn lemma_lacks_concat(x: Seq<char>, y: Seq<char>, c: char)
    requires
        lacks(x, c),
        lacks(y, c),
    ensures
        lacks(x + y, c),
{
    assert forall|k: int| 0 <= k < (x + y).len() implies #[trigger] (x + y)[k] != c by {
        if k < x.len() {
            assert((x + y)[k] == x[k]);
        } else {
            assert((x + y)[k] == y[k - x.len()]);
        }
    }
}

/// The search for a link pipe finds nothing in text without a pipe.
pub proof fn lemma_find_pipe_none(s: Seq<char>, j: int)
    requires
        lacks(s, '|'),
    ensures
        find_pipe(s, j) is None,
    decreases s.len() - j,
{
    if 0 <= j < s.len() && s[j] != '\n' && !(j + 1 < s.len() && s[j] == ']' && s[j + 1]
        == ']') {
        lemma_find_pipe_none(s, j + 1);
    }
}

/// The search for an image pipe finds nothing when no position holds a pipe
/// whose candidate url ends in an image extension.
pub proof fn lemma_find_img_pipe_none_region(s: Seq<char>, ustart: int, j: int)
    requires
        forall|k: int|
            j <= k < s.len() ==> !(#[trigger] s[k] == '|' && has_image_ext(
                s.subrange(ustart, k),
            )),
    ensures
        find_img_pipe(s, ustart, j) is None,
    decreases s.len() - j,
{
    if 0 <= j < s.len() && s[j] != '\n' && !(j + 1 < s.len() && s[j] == ']' && s[j + 1]
        == ']') {
        lemma_find_img_pipe_none_region(s, ustart, j + 1);
    }
}

/// The search for an image pipe walks a clean region and stops exactly at a
/// pipe whose candidate url carries an image extension.
pub proof fn lemma_find_img_pipe_reaches(s: Seq<char>, ustart: int, j: int, p: int)
    requires
        0 <= ustart,
        ustart <= j <= p < s.len(),
        s[p] == '|',
        has_image_ext(s.subrange(ustart, p)),
        forall|k: int|
            j <= k < p ==> !(#[trigger] s[k] == '\n') && !(s[k] == ']' && s[k + 1] == ']') && !(
            s[k] == '|' && has_image_ext(s.subrange(ustart, k))),
    ensures
        find_img_pipe(s, ustart, j) == Some(p),
    decreases p - j,
{
    if j < p {
        lemma_find_img_pipe_reaches(s, ustart, j + 1, p);
    }
}

/// The search for a link pipe walks a clean region and stops at the pipe.
pub proof fn lemma_find_pipe_reaches(s: Seq<char>, j: int, p: int)
    requires
        0 <= j <= p < s.len(),
        s[p] == '|',
        forall|k: int|
            j <= k < p ==> #[trigger] s[k] != '\n' && s[k] != '|' && !(s[k] == ']' && s[k + 1]
                == ']'),
    ensures
        find_pipe(s, j) == Some(p),
    decreases p - j,
{
    if j < p {
        lemma_find_pipe_reaches(s, j + 1, p);
    }
}

/// The search for the closing `]]` walks a clean region and stops at it.
pub proof fn lemma_find_close_reaches(s: Seq<char>, j: int, e: int)
    requires
        0 <= j <= e,
        e + 2 <= s.len(),
        s[e] == ']',
        s[e + 1] == ']',
        forall|k: int|
            j <= k < e ==> #[trigger] s[k] != '\n' && !(s[k] == ']' && s[k + 1] == ']'),
    ensures
        find_close(s, j) == Some(e),
    decreases e - j,
{
    if j < e {
        lemma_find_close_reaches(s, j + 1, e);
    }
}

/// Skipping spaces over an all-space region lands on the first non-space.
pub proof fn lemma_skip_spaces_reaches(s: Seq<char>, j: int, q: int)
    requires
        0 <= j <= q <= s.len(),
        forall|k: int| j <= k < q ==> #[trigger] s[k] == ' ',
        q == s.len() || s[q] != ' ',
    ensures
        skip_spaces(s, j) == q,
    decreases q - j,
{
    if j < q {
        lemma_skip_spaces_reaches(s, j + 1, q);
    }
}

/// Stripping trailing spaces from an all-space tail lands right after the
/// last non-space character.
pub proof fn lemma_skip_spaces_back_reaches(s: Seq<char>, lo: int, j: int, q: int)
    requires
        0 <= lo <= q <= j <= s.len(),
        forall|k: int| q <= k < j ==> #[trigger] s[k] == ' ',
        q == lo || s[q - 1] != ' ',
    ensures
        skip_spaces_back(s, lo, j) == q,
    decreases j - q,
{
    if q < j {
        lemma_skip_spaces_back_reaches(s, lo, j - 1, q);
    }
}

/// An image extension seen on a suffix is seen on the whole candidate too:
/// the check reads only the last few characters.
pub proof fn lemma_ext_of_suffix(s: Seq<char>, a1: int, a2: int, b: int)
    requires
        0 <= a1 <= a2 <= b <= s.len(),
        has_image_ext(s.subrange(a2, b)),
    ensures
        has_image_ext(s.subrange(a1, b)),
{
    let v = s.subrange(a2, b);
    let u = s.subrange(a1, b);
    if v.len() >= 4 {
        assert(u[u.len() - 4] == v[v.len() - 4]);
        assert(u[u.len() - 3] == v[v.len() - 3]);
        assert(u[u.len() - 2] == v[v.len() - 2]);
        assert(u[u.len() - 1] == v[v.len() - 1]);
    }
    if v.len() >= 5 {
        assert(u[u.len() - 5] == v[v.len() - 5]);
    }
}

/// Where no image form begins anywhere, the image pass is the identity on
/// the remaining text.
pub proof fn lemma_image_pass_none_identity(
    s: Seq<char>,
    i: int,
    account: Seq<char>,
    repo: Seq<char>,
)
    requires
        0 <= i <= s.len(),
        forall|x: int| 0 <= x < s.len() ==> #[trigger] img_match_at(s, x) is None,
    ensures
        image_pass_from(s, i, account, repo) == s.subrange(i, s.len() as int),
    decreases s.len() - i,
{
    if i < s.len() {
        lemma_image_pass_none_identity(s, i + 1, account, repo);
        assert(seq![s[i]] + s.subrange(i + 1, s.len() as int) =~= s.subrange(
            i,
            s.len() as int,
        ));
    } else {
        assert(s.subrange(i, s.len() as int) =~= Seq::<char>::empty());
    }
}

/// Where no link form begins anywhere, the link pass is the identity on the
/// remaining text.
pub proof fn lemma_link_pass_none_identity(
    s: Seq<char>,
    i: int,
    account: Seq<char>,
    repo: Seq<char>,
)
    requires
        0 <= i <= s.len(),
        forall|x: int| 0 <= x < s.len() ==> #[trigger] link_match_at(s, x) is None,
    ensures
        link_pass_from(s, i, account, repo) == s.subrange(i, s.len() as int),
    decreases s.len() - i,
{
    if i < s.len() {
        lemma_link_pass_none_identity(s, i + 1, account, repo);
        assert(seq![s[i]] + s.subrange(i + 1, s.len() as int) =~= s.subrange(
            i,
            s.len() as int,
        ));
    } else {
        assert(s.subrange(i, s.len() as int) =~= Seq::<char>::empty());
    }
}

/// Text without a pipe holds no link form; the link pass returns it
/// unchanged.
pub proof fn lemma_link_pass_no_pipe_identity(s: Seq<char>, account: Seq<char>, repo: Seq<char>)
    requires
        lacks(s, '|'),
    ensures
        link_pass_from(s, 0, account, repo) == s,
{
    assert forall|x: int| 0 <= x < s.len() implies #[trigger] link_match_at(s, x) is None by {
        lemma_find_pipe_none(s, x + 2);
    }
    lemma_link_pass_none_identity(s, 0, account, repo);
    assert(s.subrange(0, s.len() as int) =~= s);
}

/// Law: text without a pipe holds neither bracket form, and the conversion
/// returns it unchanged. In particular malformed bracket text that matches
/// no form passes through untouched.
pub proof fn lemma_convert_no_pipe_unchanged(md: Seq<char>, account: Seq<char>, repo: Seq<char>)
    requires
        lacks(md, '|'),
    ensures
        spec_convert(md, account, repo) == md,
{
    assert forall|x: int| 0 <= x < md.len() implies #[trigger] img_match_at(md, x) is None by {
        assert forall|k: int|
            x + 2 <= k < md.len() implies !(#[trigger] md[k] == '|' && has_image_ext(
            md.subrange(x + 2, k),
        )) by {}
        lemma_find_img_pipe_none_region(md, x + 2, x + 2);
    }
    lemma_image_pass_none_identity(md, 0, account, repo);
    assert(md.subrange(0, md.len() as int) =~= md);
    lemma_link_pass_no_pipe_identity(md, account, repo);
}

/// A markdown image reference built from pipe-free parts holds no pipe, so
/// the link pass cannot touch it.
pub proof fn lemma_image_markdown_no_pipe(
    u: Seq<char>,
    t: Seq<char>,
    account: Seq<char>,
    repo: Seq<char>,
)
    requires
        lacks(u, '|'),
        lacks(t, '|'),
        lacks(account, '|'),
        lacks(repo, '|'),
    ensures
        lacks(image_markdown(u, t, account, repo), '|'),
{
    assert(lacks("!["@, '|')) by {
        reveal_strlit("![");
    }
    assert(lacks("](https://raw.githubusercontent.com/wiki/"@, '|')) by {
        reveal_strlit("](https://raw.githubusercontent.com/wiki/");
    }
    assert(lacks("/"@, '|')) by {
        reveal_strlit("/");
    }
    assert(lacks(")"@, '|')) by {
        reveal_strlit(")");
    }
    let c1 = "!["@ + t;
    lemma_lacks_concat("!["@, t, '|');
    let c2 = c1 + "](https://raw.githubusercontent.com/wiki/"@;
    lemma_lacks_concat(c1, "](https://raw.githubusercontent.com/wiki/"@, '|');
    let c3 = c2 + account;
    lemma_lacks_concat(c2, account, '|');
    let c4 = c3 + "/"@;
    lemma_lacks_concat(c3, "/"@, '|');
    let c5 = c4 + repo;
    lemma_lacks_concat(c4, repo, '|');
    let c6 = c5 + u;
    lemma_lacks_concat(c5, u, '|');
    let c7 = c6 + ")"@;
    lemma_lacks_concat(c6, ")"@, '|');
    assert(c7 == image_markdown(u, t, account, repo));
}

/// Law: an image bracket form `[[url|alt]]` is resolved by the conversion
/// into exactly one markdown image reference: the alt text is kept verbatim
/// as the caption, and the image url is prefixed with the raw-content host,
/// the account and the repository. The later link pass leaves the reference
/// untouched: an image form is never consumed as a link form.
#[verifier::rlimit(60)]
pub proof fn lemma_convert_single_image(
    u: Seq<char>,
    t: Seq<char>,
    account: Seq<char>,
    repo: Seq<char>,
)
    requires
        has_image_ext(u),
        lacks(u, '|'),
        lacks(u, '\n'),
        lacks(u, ']'),
        lacks(t, '|'),
        lacks(t, '\n'),
        lacks(t, ']'),
        lacks(account, '|'),
        lacks(repo, '|'),
    ensures
        spec_convert("[["@ + u + "|"@ + t + "]]"@, account, repo) == image_markdown(
            u,
            t,
            account,
            repo,
        ),
{
    reveal_strlit("[[");
    reveal_strlit("|");
    reveal_strlit("]]");
    let s = "[["@ + u + "|"@ + t + "]]"@;
    let ul = u.len() as int;
    let tl = t.len() as int;
    let p = 2 + ul;
    let e = p + 1 + tl;
    assert(s.len() == ul + tl + 5);
    assert(s[0] == '[' && s[1] == '[');
    assert(forall|k: int| 2 <= k < p ==> #[trigger] s[k] == u[k - 2]);
    assert(s[p] == '|');
    assert(forall|k: int| p + 1 <= k < e ==> #[trigger] s[k] == t[k - p - 1]);
    assert(s[e] == ']' && s[e + 1] == ']');
    // the pipe search walks the url and stops at the pipe
    assert(s.subrange(2, p) =~= u);
    assert forall|k: int|
        2 <= k < p implies !(#[trigger] s[k] == '\n') && !(s[k] == ']' && s[k + 1] == ']') && !(
    s[k] == '|' && has_image_ext(s.subrange(2, k))) by {
        assert(s[k] == u[k - 2]);
    }
    lemma_find_img_pipe_reaches(s, 2, 2, p);
    // the close search walks the alt text and stops at the `]]`
    assert forall|k: int|
        p + 1 <= k < e implies #[trigger] s[k] != '\n' && !(s[k] == ']' && s[k + 1]
        == ']') by {
        assert(s[k] == t[k - p - 1]);
    }
    lemma_find_close_reaches(s, p + 1, e);
    assert(img_match_at(s, 0) == Some((p, e)));
    assert(s.subrange(p + 1, e) =~= t);
    // one match consumes the whole text
    let rep_md = image_markdown(u, t, account, repo);
    assert(e + 2 == s.len());
    assert(image_pass_from(s, e + 2, account, repo) == Seq::<char>::empty());
    assert(image_pass_from(s, 0, account, repo) =~= rep_md);
    // the link pass finds no pipe in the replacement and keeps it
    lemma_image_markdown_no_pipe(u, t, account, repo);
    lemma_link_pass_no_pipe_identity(rep_md, account, repo);
}

// ---------------------------------------------------------------------------
// The conversion is line-local: no form crosses a newline, so text converts
// line by line.
// ---------------------------------------------------------------------------

/// Two pieces of text joined by a newline.
pub open spec fn line_join(x: Seq<char>, y: Seq<char>) -> Seq<char> {
    x + seq!['\n'] + y
}

proof fn lemma_prefix_find_img_pipe(x: Seq<char>, y: Seq<char>, ustart: int, j: int)
    requires
        0 <= ustart <= j <= x.len(),
    ensures
        find_img_pipe(line_join(x, y), ustart, j) == find_img_pipe(x, ustart, j),
    decreases x.len() - j,
{
    let s = line_join(x, y);
    if j < x.len() {
        assert(s.subrange(ustart, j) =~= x.subrange(ustart, j));
        if x[j] != '\n' && !(j + 1 < x.len() && x[j] == ']' && x[j + 1] == ']') && !(x[j] == '|'
            && has_image_ext(x.subrange(ustart, j))) {
            lemma_prefix_find_img_pipe(x, y, ustart, j + 1);
        }
    }
}

proof fn lemma_prefix_find_pipe(x: Seq<char>, y: Seq<char>, j: int)
    requires
        0 <= j <= x.len(),
    ensures
        find_pipe(line_join(x, y), j) == find_pipe(x, j),
    decreases x.len() - j,
{
    let s = line_join(x, y);
    if j < x.len() {
        if x[j] != '\n' && !(j + 1 < x.len() && x[j] == ']' && x[j + 1] == ']') && x[j] != '|' {
            lemma_prefix_find_pipe(x, y, j + 1);
        }
    }
}

proof fn lemma_prefix_find_close(x: Seq<char>, y: Seq<char>, j: int)
    requires
        0 <= j <= x.len(),
    ensures
        find_close(line_join(x, y), j) == find_close(x, j),
    decreases x.len() + 1 - j,
{
    let s = line_join(x, y);
    if j < x.len() {
        if !(x[j] == ']' && j + 1 < x.len() && x[j + 1] == ']') && x[j] != '\n' {
            lemma_prefix_find_close(x, y, j + 1);
        }
    }
}

proof fn lemma_prefix_skip_spaces(x: Seq<char>, y: Seq<char>, j: int)
    requires
        0 <= j <= x.len(),
    ensures
        skip_spaces(line_join(x, y), j) == skip_spaces(x, j),
    decreases x.len() - j,
{
    if j < x.len() && x[j] == ' ' {
        lemma_prefix_skip_spaces(x, y, j + 1);
    }
}

proof fn lemma_shift_find_img_pipe(x: Seq<char>, y: Seq<char>, ustart: int, j: int)
    requires
        0 <= ustart <= j,
    ensures
        find_img_pipe(line_join(x, y), x.len() + 1 + ustart, x.len() + 1 + j) == (
        match find_img_pipe(y, ustart, j) {
            Some(p) => Some(x.len() + 1 + p),
            None => None,
        }),
    decreases y.len() + 1 - j,
{
    let s = line_join(x, y);
    let d = x.len() as int + 1;
    if j < y.len() {
        assert(s.subrange(d + ustart, d + j) =~= y.subrange(ustart, j));
        if y[j] != '\n' && !(j + 1 < y.len() && y[j] == ']' && y[j + 1] == ']') && !(y[j] == '|'
            && has_image_ext(y.subrange(ustart, j))) {
            lemma_shift_find_img_pipe(x, y, ustart, j + 1);
        }
    }
}

proof fn lemma_shift_find_pipe(x: Seq<char>, y: Seq<char>, j: int)
    requires
        0 <= j,
    ensures
        find_pipe(line_join(x, y), x.len() + 1 + j) == (match find_pipe(y, j) {
            Some(p) => Some(x.len() + 1 + p),
            None => None,
        }),
    decreases y.len() + 1 - j,
{
    if j < y.len() {
        if y[j] != '\n' && !(j + 1 < y.len() && y[j] == ']' && y[j + 1] == ']') && y[j] != '|' {
            lemma_shift_find_pipe(x, y, j + 1);
        }
    }
}

proof fn lemma_shift_find_close(x: Seq<char>, y: Seq<char>, j: int)
    requires
        0 <= j,
    ensures
        find_close(line_join(x, y), x.len() + 1 + j) == (match find_close(y, j) {
            Some(e) => Some(x.len() + 1 + e),
            None => None,
        }),
    decreases y.len() + 1 - j,
{
    if j + 2 <= y.len() {
        if !(y[j] == ']' && y[j + 1] == ']') && y[j] != '\n' {
            lemma_shift_find_close(x, y, j + 1);
        }
    }
}

proof fn lemma_shift_skip_spaces(x: Seq<char>, y: Seq<char>, j: int)
    requires
        0 <= j,
    ensures
        skip_spaces(line_join(x, y), x.len() + 1 + j) == x.len() + 1 + skip_spaces(y, j),
    decreases y.len() + 1 - j,
{
    if j < y.len() && y[j] == ' ' {
        lemma_shift_skip_spaces(x, y, j + 1);
    }
}

proof fn lemma_prefix_skip_spaces_back(x: Seq<char>, y: Seq<char>, lo: int, j: int)
    requires
        0 <= lo <= j <= x.len(),
    ensures
        skip_spaces_back(line_join(x, y), lo, j) == skip_spaces_back(x, lo, j),
    decreases j - lo,
{
    if lo < j && x[j - 1] == ' ' {
        lemma_prefix_skip_spaces_back(x, y, lo, j - 1);
    }
}

proof fn lemma_shift_skip_spaces_back(x: Seq<char>, y: Seq<char>, lo: int, j: int)
    requires
        0 <= lo <= j <= y.len(),
    ensures
        skip_spaces_back(line_join(x, y), x.len() + 1 + lo, x.len() + 1 + j) == x.len() + 1
            + skip_spaces_back(y, lo, j),
    decreases j - lo,
{
    if lo < j && y[j - 1] == ' ' {
        lemma_shift_skip_spaces_back(x, y, lo, j - 1);
    }
}

proof fn lemma_prefix_img_match(x: Seq<char>, y: Seq<char>, i: int)
    requires
        0 <= i <= x.len(),
    ensures
        img_match_at(line_join(x, y), i) == img_match_at(x, i),
{
    let s = line_join(x, y);
    if i + 2 <= x.len() && x[i] == '[' && x[i + 1] == '[' {
        lemma_prefix_find_img_pipe(x, y, i + 2, i + 2);
        match find_img_pipe(x, i + 2, i + 2) {
            Some(p) => {
                lemma_find_img_pipe_some(x, i + 2, i + 2);
                lemma_prefix_find_close(x, y, p + 1);
            },
            None => {},
        }
    } else {
        if i + 2 <= s.len() {
            if i == x.len() {
                assert(s[i] == '\n');
            } else if i + 1 == x.len() {
                assert(s[i + 1] == '\n');
            }
        }
    }
}

proof fn lemma_shift_img_match(x: Seq<char>, y: Seq<char>, i: int)
    requires
        0 <= i,
    ensures
        img_match_at(line_join(x, y), x.len() + 1 + i) == (match img_match_at(y, i) {
            Some(m) => Some((x.len() + 1 + m.0, x.len() + 1 + m.1)),
            None => None,
        }),
{
    let s = line_join(x, y);
    let d = x.len() as int + 1;
    if i + 2 <= y.len() && y[i] == '[' && y[i + 1] == '[' {
        lemma_shift_find_img_pipe(x, y, i + 2, i + 2);
        match find_img_pipe(y, i + 2, i + 2) {
            Some(p) => {
                lemma_find_img_pipe_some(y, i + 2, i + 2);
                lemma_shift_find_close(x, y, p + 1);
            },
            None => {},
        }
    }
}

proof fn lemma_prefix_link_match(x: Seq<char>, y: Seq<char>, i: int)
    requires
        0 <= i <= x.len(),
    ensures
        link_match_at(line_join(x, y), i) == link_match_at(x, i),
{
    let s = line_join(x, y);
    if i + 2 <= x.len() && x[i] == '[' && x[i + 1] == '[' {
        lemma_prefix_find_pipe(x, y, i + 2);
        match find_pipe(x, i + 2) {
            Some(p) => {
                lemma_find_pipe_some(x, i + 2);
                lemma_prefix_skip_spaces(x, y, p + 1);
                lemma_skip_spaces_bounds(x, p + 1);
                let q = skip_spaces(x, p + 1);
                lemma_prefix_find_close(x, y, q);
            },
            None => {},
        }
    } else {
        if i + 2 <= s.len() {
            if i == x.len() {
                assert(s[i] == '\n');
            } else if i + 1 == x.len() {
                assert(s[i + 1] == '\n');
            }
        }
    }
}

proof fn lemma_shift_link_match(x: Seq<char>, y: Seq<char>, i: int)
    requires
        0 <= i,
    ensures
        link_match_at(line_join(x, y), x.len() + 1 + i) == (match link_match_at(y, i) {
            Some(m) => Some(
                (x.len() + 1 + m.0, x.len() + 1 + m.1, x.len() + 1 + m.2),
            ),
            None => None,
        }),
{
    let s = line_join(x, y);
    if i + 2 <= y.len() && y[i] == '[' && y[i + 1] == '[' {
        lemma_shift_find_pipe(x, y, i + 2);
        match find_pipe(y, i + 2) {
            Some(p) => {
                lemma_find_pipe_some(y, i + 2);
                lemma_shift_skip_spaces(x, y, p + 1);
                lemma_skip_spaces_bounds(y, p + 1);
                let q = skip_spaces(y, p + 1);
                lemma_shift_find_close(x, y, q);
            },
            None => {},
        }
    }
}

proof fn lemma_shift_image_pass(
    x: Seq<char>,
    y: Seq<char>,
    i: int,
    account: Seq<char>,
    repo: Seq<char>,
)
    requires
        0 <= i,
    ensures
        image_pass_from(line_join(x, y), x.len() + 1 + i, account, repo) == image_pass_from(
            y,
            i,
            account,
            repo,
        ),
    decreases y.len() + 1 - i,
{
    let s = line_join(x, y);
    let d = x.len() as int + 1;
    lemma_shift_img_match(x, y, i);
    if i < y.len() {
        match img_match_at(y, i) {
            Some(m) => {
                lemma_img_match_at_some(y, i);
                assert(s.subrange(d + i + 2, d + m.0) =~= y.subrange(i + 2, m.0));
                assert(s.subrange(d + m.0 + 1, d + m.1) =~= y.subrange(m.0 + 1, m.1));
                lemma_shift_image_pass(x, y, m.1 + 2, account, repo);
            },
            None => {
                assert(s[d + i] == y[i]);
                lemma_shift_image_pass(x, y, i + 1, account, repo);
            },
        }
    }
}

proof fn lemma_prefix_image_pass(
    x: Seq<char>,
    y: Seq<char>,
    i: int,
    account: Seq<char>,
    repo: Seq<char>,
)
    requires
        0 <= i <= x.len(),
    ensures
        image_pass_from(line_join(x, y), i, account, repo) == image_pass_from(x, i, account, repo)
            + seq!['\n'] + image_pass_from(y, 0, account, repo),
    decreases x.len() - i,
{
    let s = line_join(x, y);
    let iy = image_pass_from(y, 0, account, repo);
    lemma_prefix_img_match(x, y, i);
    if i < x.len() {
        match img_match_at(x, i) {
            Some(m) => {
                lemma_img_match_at_some(x, i);
                assert(s.subrange(i + 2, m.0) =~= x.subrange(i + 2, m.0));
                assert(s.subrange(m.0 + 1, m.1) =~= x.subrange(m.0 + 1, m.1));
                lemma_prefix_image_pass(x, y, m.1 + 2, account, repo);
                let a1 = image_markdown(
                    x.subrange(i + 2, m.0),
                    x.subrange(m.0 + 1, m.1),
                    account,
                    repo,
                );
                let rest = image_pass_from(x, m.1 + 2, account, repo);
                assert(a1 + (rest + seq!['\n'] + iy) =~= a1 + rest + seq!['\n'] + iy);
            },
            None => {
                assert(s[i] == x[i]);
                lemma_prefix_image_pass(x, y, i + 1, account, repo);
                let rest = image_pass_from(x, i + 1, account, repo);
                assert(seq![x[i]] + (rest + seq!['\n'] + iy) =~= seq![x[i]] + rest + seq!['\n']
                    + iy);
            },
        }
    } else {
        assert(s[i] == '\n');
        lemma_shift_image_pass(x, y, 0, account, repo);
        assert(image_pass_from(x, i, account, repo) == Seq::<char>::empty());
        assert(Seq::<char>::empty() + seq!['\n'] + iy =~= seq!['\n'] + iy);
    }
}

proof fn lemma_shift_link_pass(
    x: Seq<char>,
    y: Seq<char>,
    i: int,
    account: Seq<char>,
    repo: Seq<char>,
)
    requires
        0 <= i,
    ensures
        link_pass_from(line_join(x, y), x.len() + 1 + i, account, repo) == link_pass_from(
            y,
            i,
            account,
            repo,
        ),
    decreases y.len() + 1 - i,
{
    let s = line_join(x, y);
    let d = x.len() as int + 1;
    lemma_shift_link_match(x, y, i);
    if i < y.len() {
        match link_match_at(y, i) {
            Some(m) => {
                lemma_link_match_at_some(y, i);
                lemma_shift_skip_spaces_back(x, y, m.1, m.2);
                lemma_skip_spaces_back_bounds(y, m.1, m.2);
                let bend = skip_spaces_back(y, m.1, m.2);
                assert(s.subrange(d + i + 2, d + m.0) =~= y.subrange(i + 2, m.0));
                assert(s.subrange(d + m.1, d + bend) =~= y.subrange(m.1, bend));
                lemma_shift_link_pass(x, y, m.2 + 2, account, repo);
            },
            None => {
                assert(s[d + i] == y[i]);
                lemma_shift_link_pass(x, y, i + 1, account, repo);
            },
        }
    }
}

proof fn lemma_prefix_link_pass(
    x: Seq<char>,
    y: Seq<char>,
    i: int,
    account: Seq<char>,
    repo: Seq<char>,
)
    requires
        0 <= i <= x.len(),
    ensures
        link_pass_from(line_join(x, y), i, account, repo) == link_pass_from(x, i, account, repo)
            + seq!['\n'] + link_pass_from(y, 0, account, repo),
    decreases x.len() - i,
{
    let s = line_join(x, y);
    let ly = link_pass_from(y, 0, account, repo);
    lemma_prefix_link_match(x, y, i);
    if i < x.len() {
        match link_match_at(x, i) {
            Some(m) => {
                lemma_link_match_at_some(x, i);
                lemma_prefix_skip_spaces_back(x, y, m.1, m.2);
                lemma_skip_spaces_back_bounds(x, m.1, m.2);
                let bend = skip_spaces_back(x, m.1, m.2);
                assert(s.subrange(i + 2, m.0) =~= x.subrange(i + 2, m.0));
                assert(s.subrange(m.1, bend) =~= x.subrange(m.1, bend));
                lemma_prefix_link_pass(x, y, m.2 + 2, account, repo);
                let a1 = link_markdown(
                    x.subrange(i + 2, m.0),
                    x.subrange(m.1, bend),
                    account,
                    repo,
                );
                let rest = link_pass_from(x, m.2 + 2, account, repo);
                assert(a1 + (rest + seq!['\n'] + ly) =~= a1 + rest + seq!['\n'] + ly);
            },
            None => {
                assert(s[i] == x[i]);
                lemma_prefix_link_pass(x, y, i + 1, account, repo);
                let rest = link_pass_from(x, i + 1, account, repo);
                assert(seq![x[i]] + (rest + seq!['\n'] + ly) =~= seq![x[i]] + rest + seq!['\n']
                    + ly);
            },
        }
    } else {
        assert(s[i] == '\n');
        lemma_shift_link_pass(x, y, 0, account, repo);
        assert(link_pass_from(x, i, account, repo) == Seq::<char>::empty());
        assert(Seq::<char>::empty() + seq!['\n'] + ly =~= seq!['\n'] + ly);
    }
}

/// Law: the conversion is line-local. No bracket form crosses a newline, so
/// joining two texts with a newline and converting is the same as converting
/// each text and joining the results. Every occurrence therefore converts
/// independently of the other lines around it.
pub proof fn lemma_convert_line_local(
    x: Seq<char>,
    y: Seq<char>,
    account: Seq<char>,
    repo: Seq<char>,
)
    ensures
        spec_convert(line_join(x, y), account, repo) == line_join(
            spec_convert(x, account, repo),
            spec_convert(y, account, repo),
        ),
{
    lemma_prefix_image_pass(x, y, 0, account, repo);
    let ix = image_pass_from(x, 0, account, repo);
    let iy = image_pass_from(y, 0, account, repo);
    assert(image_pass_from(line_join(x, y), 0, account, repo) == line_join(ix, iy));
    lemma_prefix_link_pass(ix, iy, 0, account, repo);
}

// ---------------------------------------------------------------------------
// The conversion is also compositional within a line: the searches only read
// to the right, so what follows a position never changes how text before it
// converts, and text in which no form can begin passes straight through.
// ---------------------------------------------------------------------------

/// No `[[` occurs in `s`, so no bracket form can begin inside it.
pub open spec fn no_open_bracket(s: Seq<char>) -> bool {
    forall|k: int| 0 <= k && k + 1 < s.len() ==> !(#[trigger] s[k] == '[' && s[k + 1] == '[')
}

proof fn lemma_cat_find_img_pipe(w: Seq<char>, z: Seq<char>, ustart: int, j: int)
    requires
        0 <= ustart <= j,
    ensures
        find_img_pipe(w + z, w.len() + ustart, w.len() + j) == (match find_img_pipe(
            z,
            ustart,
            j,
        ) {
            Some(p) => Some(w.len() + p),
            None => None,
        }),
    decreases z.len() + 1 - j,
{
    let s = w + z;
    let d = w.len() as int;
    if j < z.len() {
        assert(s.subrange(d + ustart, d + j) =~= z.subrange(ustart, j));
        if z[j] != '\n' && !(j + 1 < z.len() && z[j] == ']' && z[j + 1] == ']') && !(z[j] == '|'
            && has_image_ext(z.subrange(ustart, j))) {
            lemma_cat_find_img_pipe(w, z, ustart, j + 1);
        }
    }
}

proof fn lemma_cat_find_pipe(w: Seq<char>, z: Seq<char>, j: int)
    requires
        0 <= j,
    ensures
        find_pipe(w + z, w.len() + j) == (match find_pipe(z, j) {
            Some(p) => Some(w.len() + p),
            None => None,
        }),
    decreases z.len() + 1 - j,
{
    if j < z.len() {
        if z[j] != '\n' && !(j + 1 < z.len() && z[j] == ']' && z[j + 1] == ']') && z[j] != '|' {
            lemma_cat_find_pipe(w, z, j + 1);
        }
    }
}

proof fn lemma_cat_find_close(w: Seq<char>, z: Seq<char>, j: int)
    requires
        0 <= j,
    ensures
        find_close(w + z, w.len() + j) == (match find_close(z, j) {
            Some(e) => Some(w.len() + e),
            None => None,
        }),
    decreases z.len() + 1 - j,
{
    if j + 2 <= z.len() {
        if !(z[j] == ']' && z[j + 1] == ']') && z[j] != '\n' {
            lemma_cat_find_close(w, z, j + 1);
        }
    }
}

proof fn lemma_cat_skip_spaces(w: Seq<char>, z: Seq<char>, j: int)
    requires
        0 <= j,
    ensures
        skip_spaces(w + z, w.len() + j) == w.len() + skip_spaces(z, j),
    decreases z.len() + 1 - j,
{
    if j < z.len() && z[j] == ' ' {
        lemma_cat_skip_spaces(w, z, j + 1);
    }
}

proof fn lemma_cat_skip_spaces_back(w: Seq<char>, z: Seq<char>, lo: int, j: int)
    requires
        0 <= lo <= j <= z.len(),
    ensures
        skip_spaces_back(w + z, w.len() + lo, w.len() + j) == w.len() + skip_spaces_back(
            z,
            lo,
            j,
        ),
    decreases j - lo,
{
    if lo < j && z[j - 1] == ' ' {
        lemma_cat_skip_spaces_back(w, z, lo, j - 1);
    }
}

proof fn lemma_cat_img_match(w: Seq<char>, z: Seq<char>, i: int)
    requires
        0 <= i,
    ensures
        img_match_at(w + z, w.len() + i) == (match img_match_at(z, i) {
            Some(m) => Some((w.len() + m.0, w.len() + m.1)),
            None => None,
        }),
{
    let s = w + z;
    if i + 2 <= z.len() && z[i] == '[' && z[i + 1] == '[' {
        lemma_cat_find_img_pipe(w, z, i + 2, i + 2);
        match find_img_pipe(z, i + 2, i + 2) {
            Some(p) => {
                lemma_find_img_pipe_some(z, i + 2, i + 2);
                lemma_cat_find_close(w, z, p + 1);
            },
            None => {},
        }
    }
}

proof fn lemma_cat_link_match(w: Seq<char>, z: Seq<char>, i: int)
    requires
        0 <= i,
    ensures
        link_match_at(w + z, w.len() + i) == (match link_match_at(z, i) {
            Some(m) => Some((w.len() + m.0, w.len() + m.1, w.len() + m.2)),
            None => None,
        }),
{
    let s = w + z;
    if i + 2 <= z.len() && z[i] == '[' && z[i + 1] == '[' {
        lemma_cat_find_pipe(w, z, i + 2);
        match find_pipe(z, i + 2) {
            Some(p) => {
                lemma_find_pipe_some(z, i + 2);
                lemma_cat_skip_spaces(w, z, p + 1);
                lemma_skip_spaces_bounds(z, p + 1);
                lemma_cat_find_close(w, z, skip_spaces(z, p + 1));
            },
            None => {},
        }
    }
}

proof fn lemma_cat_image_pass(
    w: Seq<char>,
    z: Seq<char>,
    i: int,
    account: Seq<char>,
    repo: Seq<char>,
)
    requires
        0 <= i,
    ensures
        image_pass_from(w + z, w.len() + i, account, repo) == image_pass_from(
            z,
            i,
            account,
            repo,
        ),
    decreases z.len() + 1 - i,
{
    let s = w + z;
    let d = w.len() as int;
    lemma_cat_img_match(w, z, i);
    if i < z.len() {
        match img_match_at(z, i) {
            Some(m) => {
                lemma_img_match_at_some(z, i);
                assert(s.subrange(d + i + 2, d + m.0) =~= z.subrange(i + 2, m.0));
                assert(s.subrange(d + m.0 + 1, d + m.1) =~= z.subrange(m.0 + 1, m.1));
                lemma_cat_image_pass(w, z, m.1 + 2, account, repo);
            },
            None => {
                assert(s[d + i] == z[i]);
                lemma_cat_image_pass(w, z, i + 1, account, repo);
            },
        }
    }
}

proof fn lemma_cat_link_pass(
    w: Seq<char>,
    z: Seq<char>,
    i: int,
    account: Seq<char>,
    repo: Seq<char>,
)
    requires
        0 <= i,
    ensures
        link_pass_from(w + z, w.len() + i, account, repo) == link_pass_from(z, i, account, repo),
    decreases z.len() + 1 - i,
{
    let s = w + z;
    let d = w.len() as int;
    lemma_cat_link_match(w, z, i);
    if i < z.len() {
        match link_match_at(z, i) {
            Some(m) => {
                lemma_link_match_at_some(z, i);
                lemma_cat_skip_spaces_back(w, z, m.1, m.2);
                lemma_skip_spaces_back_bounds(z, m.1, m.2);
                let bend = skip_spaces_back(z, m.1, m.2);
                assert(s.subrange(d + i + 2, d + m.0) =~= z.subrange(i + 2, m.0));
                assert(s.subrange(d + m.1, d + bend) =~= z.subrange(m.1, bend));
                lemma_cat_link_pass(w, z, m.2 + 2, account, repo);
            },
            None => {
                assert(s[d + i] == z[i]);
                lemma_cat_link_pass(w, z, i + 1, account, repo);
            },
        }
    }
}

proof fn lemma_cat_image_pass_prefix(
    w: Seq<char>,
    z: Seq<char>,
    i: int,
    account: Seq<char>,
    repo: Seq<char>,
)
    requires
        0 <= i <= w.len(),
        no_open_bracket(w),
        w.len() > 0 ==> w[w.len() - 1] != '[',
    ensures
        image_pass_from(w + z, i, account, repo) == w.subrange(i, w.len() as int)
            + image_pass_from(z, 0, account, repo),
    decreases w.len() - i,
{
    let s = w + z;
    let d = w.len() as int;
    let rest = image_pass_from(z, 0, account, repo);
    if i < d {
        assert(img_match_at(s, i) is None) by {
            if i + 2 <= s.len() && s[i] == '[' && s[i + 1] == '[' {
                assert(s[i] == w[i]);
                if i + 1 < d {
                    assert(s[i + 1] == w[i + 1]);
                } else {
                    assert(i == d - 1);
                }
            }
        }
        assert(s[i] == w[i]);
        lemma_cat_image_pass_prefix(w, z, i + 1, account, repo);
        assert(seq![w[i]] + (w.subrange(i + 1, d) + rest) =~= w.subrange(i, d) + rest);
    } else {
        lemma_cat_image_pass(w, z, 0, account, repo);
        assert(w.subrange(d, d) + rest =~= rest);
    }
}

proof fn lemma_cat_link_pass_prefix(
    w: Seq<char>,
    z: Seq<char>,
    i: int,
    account: Seq<char>,
    repo: Seq<char>,
)
    requires
        0 <= i <= w.len(),
        no_open_bracket(w),
        w.len() > 0 ==> w[w.len() - 1] != '[',
    ensures
        link_pass_from(w + z, i, account, repo) == w.subrange(i, w.len() as int)
            + link_pass_from(z, 0, account, repo),
    decreases w.len() - i,
{
    let s = w + z;
    let d = w.len() as int;
    let rest = link_pass_from(z, 0, account, repo);
    if i < d {
        assert(link_match_at(s, i) is None) by {
            if i + 2 <= s.len() && s[i] == '[' && s[i + 1] == '[' {
                assert(s[i] == w[i]);
                if i + 1 < d {
                    assert(s[i + 1] == w[i + 1]);
                } else {
                    assert(i == d - 1);
                }
            }
        }
        assert(s[i] == w[i]);
        lemma_cat_link_pass_prefix(w, z, i + 1, account, repo);
        assert(seq![w[i]] + (w.subrange(i + 1, d) + rest) =~= w.subrange(i, d) + rest);
    } else {
        lemma_cat_link_pass(w, z, 0, account, repo);
        assert(w.subrange(d, d) + rest =~= rest);
    }
}

/// Law: the conversion works left to right. Text in which no bracket form
/// can begin — it holds no `[[` and does not end in `[` — passes through
/// both passes unchanged and does not change how the text after it
/// converts: occurrences are rewritten one by one, independently of what
/// stands before them.
pub proof fn lemma_convert_prepend(
    w: Seq<char>,
    z: Seq<char>,
    account: Seq<char>,
    repo: Seq<char>,
)
    requires
        no_open_bracket(w),
        w.len() > 0 ==> w[w.len() - 1] != '[',
    ensures
        spec_convert(w + z, account, repo) == w + spec_convert(z, account, repo),
{
    lemma_cat_image_pass_prefix(w, z, 0, account, repo);
    assert(w.subrange(0, w.len() as int) =~= w);
    let ipz = image_pass_from(z, 0, account, repo);
    assert(image_pass_from(w + z, 0, account, repo) == w + ipz);
    lemma_cat_link_pass_prefix(w, ipz, 0, account, repo);
}

proof fn lemma_lacks_no_open(x: Seq<char>)
    requires
        lacks(x, '['),
    ensures
        no_open_bracket(x),
{
}

proof fn lemma_no_open_concat(x: Seq<char>, y: Seq<char>)
    requires
        no_open_bracket(x),
        no_open_bracket(y),
        !(x.len() > 0 && y.len() > 0 && x[x.len() - 1] == '[' && y[0] == '['),
    ensures
        no_open_bracket(x + y),
{
    assert forall|k: int|
        0 <= k && k + 1 < (x + y).len() implies !(#[trigger] (x + y)[k] == '[' && (x + y)[k + 1]
        == '[') by {
        if k + 1 < x.len() {
            assert((x + y)[k] == x[k]);
            assert((x + y)[k + 1] == x[k + 1]);
        } else if k >= x.len() {
            assert((x + y)[k] == y[k - x.len()]);
            assert((x + y)[k + 1] == y[k + 1 - x.len()]);
        } else {
            assert((x + y)[k] == x[x.len() - 1]);
            assert((x + y)[k + 1] == y[0]);
        }
    }
}

/// A markdown image reference built from bracket-free parts holds no `[[`
/// and ends in `)`: no later form can begin inside it or right at its edge.
pub proof fn lemma_no_open_image_markdown(
    u: Seq<char>,
    t: Seq<char>,
    account: Seq<char>,
    repo: Seq<char>,
)
    requires
        lacks(u, '['),
        lacks(t, '['),
        lacks(account, '['),
        lacks(repo, '['),
    ensures
        no_open_bracket(image_markdown(u, t, account, repo)),
        image_markdown(u, t, account, repo).len() > 0,
        image_markdown(u, t, account, repo).last() == ')',
{
    reveal_strlit("![");
    reveal_strlit("](https://raw.githubusercontent.com/wiki/");
    reveal_strlit("/");
    reveal_strlit(")");
    assert(no_open_bracket("!["@));
    assert(lacks("](https://raw.githubusercontent.com/wiki/"@, '['));
    assert(lacks("/"@, '['));
    assert(lacks(")"@, '['));
    lemma_lacks_no_open(t);
    lemma_lacks_no_open("](https://raw.githubusercontent.com/wiki/"@);
    lemma_lacks_no_open(account);
    lemma_lacks_no_open("/"@);
    lemma_lacks_no_open(repo);
    lemma_lacks_no_open(u);
    lemma_lacks_no_open(")"@);
    let c1 = "!["@ + t;
    lemma_no_open_concat("!["@, t);
    let c2 = c1 + "](https://raw.githubusercontent.com/wiki/"@;
    lemma_no_open_concat(c1, "](https://raw.githubusercontent.com/wiki/"@);
    let c3 = c2 + account;
    lemma_no_open_concat(c2, account);
    let c4 = c3 + "/"@;
    lemma_no_open_concat(c3, "/"@);
    let c5 = c4 + repo;
    lemma_no_open_concat(c4, repo);
    let c6 = c5 + u;
    lemma_no_open_concat(c5, u);
    let c7 = c6 + ")"@;
    lemma_no_open_concat(c6, ")"@);
    assert(c7 == image_markdown(u, t, account, repo));
    assert(c7[c7.len() - 1] == ')');
}

/// Law: an image bracket form at the head of the text becomes its image
/// reference, and the rest of the text converts independently after it.
/// Together with `lemma_convert_prepend` this rewrites a text holding any
/// number of forms occurrence by occurrence, left to right.
pub proof fn lemma_convert_image_then(
    u: Seq<char>,
    t: Seq<char>,
    z: Seq<char>,
    account: Seq<char>,
    repo: Seq<char>,
)
    requires
        has_image_ext(u),
        lacks(u, '|'),
        lacks(u, '\n'),
        lacks(u, ']'),
        lacks(u, '['),
        lacks(t, '|'),
        lacks(t, '\n'),
        lacks(t, ']'),
        lacks(t, '['),
        lacks(account, '|'),
        lacks(account, '['),
        lacks(repo, '|'),
        lacks(repo, '['),
    ensures
        spec_convert("[["@ + u + "|"@ + t + "]]"@ + z, account, repo) == image_markdown(
            u,
            t,
            account,
            repo,
        ) + spec_convert(z, account, repo),
{
    reveal_strlit("[[");
    reveal_strlit("|");
    reveal_strlit("]]");
    let form = "[["@ + u + "|"@ + t + "]]"@;
    let s = form + z;
    let ul = u.len() as int;
    let tl = t.len() as int;
    let p = 2 + ul;
    let e = p + 1 + tl;
    assert(s.len() == ul + tl + 5 + z.len());
    assert(s[0] == '[' && s[1] == '[');
    assert(forall|k: int| 2 <= k < p ==> #[trigger] s[k] == u[k - 2]);
    assert(s[p] == '|');
    assert(forall|k: int| p + 1 <= k < e ==> #[trigger] s[k] == t[k - p - 1]);
    assert(s[e] == ']' && s[e + 1] == ']');
    // the match at the head reads only the form, never the tail
    assert(s.subrange(2, p) =~= u);
    assert forall|k: int|
        2 <= k < p implies !(#[trigger] s[k] == '\n') && !(s[k] == ']' && s[k + 1] == ']') && !(
    s[k] == '|' && has_image_ext(s.subrange(2, k))) by {
        assert(s[k] == u[k - 2]);
    }
    lemma_find_img_pipe_reaches(s, 2, 2, p);
    assert forall|k: int|
        p + 1 <= k < e implies #[trigger] s[k] != '\n' && !(s[k] == ']' && s[k + 1]
        == ']') by {
        assert(s[k] == t[k - p - 1]);
    }
    lemma_find_close_reaches(s, p + 1, e);
    assert(img_match_at(s, 0) == Some((p, e)));
    assert(s.subrange(p + 1, e) =~= t);
    // the match consumes exactly the form; the tail is the image pass of `z`
    let img_md = image_markdown(u, t, account, repo);
    let ipz = image_pass_from(z, 0, account, repo);
    assert(e + 2 == form.len());
    lemma_cat_image_pass(form, z, 0, account, repo);
    assert(image_pass_from(s, 0, account, repo) == img_md + ipz);
    // the link pass passes the bracket-free reference through
    lemma_no_open_image_markdown(u, t, account, repo);
    lemma_cat_link_pass_prefix(img_md, ipz, 0, account, repo);
    assert(img_md.subrange(0, img_md.len() as int) =~= img_md);
}

/// The image-pipe search gives up when it meets a closing `]]` before any
/// pipe whose candidate url carries an image extension.
proof fn lemma_find_img_pipe_stops(s: Seq<char>, ustart: int, j: int, c: int)
    requires
        0 <= j <= c,
        c + 1 < s.len(),
        s[c] == ']',
        s[c + 1] == ']',
        forall|k: int|
            j <= k < c ==> !(#[trigger] s[k] == '|' && has_image_ext(s.subrange(ustart, k))),
    ensures
        find_img_pipe(s, ustart, j) is None,
    decreases c - j,
{
    if j < c {
        if s[j] != '\n' && !(j + 1 < s.len() && s[j] == ']' && s[j + 1] == ']') {
            lemma_find_img_pipe_stops(s, ustart, j + 1, c);
        }
    }
}

/// Where no image form begins before position `d`, the image pass copies
/// the text up to `d` and goes on from there.
proof fn lemma_image_pass_none_until(
    s: Seq<char>,
    i: int,
    d: int,
    account: Seq<char>,
    repo: Seq<char>,
)
    requires
        0 <= i <= d <= s.len(),
        forall|x: int| i <= x < d ==> #[trigger] img_match_at(s, x) is None,
    ensures
        image_pass_from(s, i, account, repo) == s.subrange(i, d) + image_pass_from(
            s,
            d,
            account,
            repo,
        ),
    decreases d - i,
{
    let rest = image_pass_from(s, d, account, repo);
    if i < d {
        lemma_image_pass_none_until(s, i + 1, d, account, repo);
        assert(seq![s[i]] + (s.subrange(i + 1, d) + rest) =~= s.subrange(i, d) + rest);
    } else {
        assert(s.subrange(i, i) + rest =~= rest);
    }
}

/// Text whose single pipe closes no image url holds no image form at all.
proof fn lemma_no_image_match_single_pipe(s: Seq<char>, p: int)
    requires
        0 <= p < s.len(),
        forall|k: int| 0 <= k < s.len() ==> (#[trigger] s[k] == '|' <==> k == p),
        forall|x: int| 2 <= x <= p ==> !has_image_ext(#[trigger] s.subrange(x, p)),
    ensures
        forall|x: int| 0 <= x < s.len() ==> #[trigger] img_match_at(s, x) is None,
{
    assert forall|x: int| 0 <= x < s.len() implies #[trigger] img_match_at(s, x) is None by {
        assert forall|k: int|
            x + 2 <= k < s.len() implies !(#[trigger] s[k] == '|' && has_image_ext(
            s.subrange(x + 2, k),
        )) by {
            if s[k] == '|' {
                assert(k == p);
            }
        }
        lemma_find_img_pipe_none_region(s, x + 2, x + 2);
    }
}

/// Law: a non-image bracket form `[[text| page ]]` is left alone by the
/// image pass and resolved by the link pass into exactly one markdown link
/// under the account's and repository's wiki path, with the padding spaces
/// around the page name stripped. A page name that is all padding is taken
/// as empty padding `pad` around an empty name.
#[verifier::rlimit(100)]
pub proof fn lemma_convert_single_link(
    a: Seq<char>,
    pad: Seq<char>,
    b: Seq<char>,
    pad2: Seq<char>,
    account: Seq<char>,
    repo: Seq<char>,
)
    requires
        !has_image_ext(a),
        lacks(a, '|'),
        lacks(a, '\n'),
        lacks(a, ']'),
        lacks(b, '|'),
        lacks(b, '\n'),
        lacks(b, ']'),
        b.len() > 0 ==> b[0] != ' ',
        b.len() > 0 ==> b[b.len() - 1] != ' ',
        b.len() == 0 ==> pad2.len() == 0,
        forall|k: int| 0 <= k < pad.len() ==> #[trigger] pad[k] == ' ',
        forall|k: int| 0 <= k < pad2.len() ==> #[trigger] pad2[k] == ' ',
    ensures
        spec_convert("[["@ + a + "|"@ + pad + b + pad2 + "]]"@, account, repo) == link_markdown(
            a,
            b,
            account,
            repo,
        ),
{
    reveal_strlit("[[");
    reveal_strlit("|");
    reveal_strlit("]]");
    let s = "[["@ + a + "|"@ + pad + b + pad2 + "]]"@;
    let al = a.len() as int;
    let padl = pad.len() as int;
    let bl = b.len() as int;
    let pad2l = pad2.len() as int;
    let p = 2 + al;
    let bstart = p + 1 + padl;
    let bend = bstart + bl;
    let e = bend + pad2l;
    assert(s.len() == al + padl + bl + pad2l + 5);
    assert(s[0] == '[' && s[1] == '[');
    assert(forall|k: int| 2 <= k < p ==> #[trigger] s[k] == a[k - 2]);
    assert(s[p] == '|');
    assert(forall|k: int| p + 1 <= k < bstart ==> #[trigger] s[k] == pad[k - p - 1]);
    assert(forall|k: int| bstart <= k < bend ==> #[trigger] s[k] == b[k - bstart]);
    assert(forall|k: int| bend <= k < e ==> #[trigger] s[k] == pad2[k - bend]);
    assert(s[e] == ']' && s[e + 1] == ']');
    assert(s.subrange(2, p) =~= a);
    assert(s.subrange(bstart, bend) =~= b);
    // the image pass finds no image form anywhere: the only pipe's candidate
    // url is `a` or a suffix of it, and neither ends in an image extension
    assert forall|k: int| 0 <= k < s.len() implies (#[trigger] s[k] == '|' <==> k == p) by {
        if 2 <= k < p {
            assert(s[k] == a[k - 2]);
        } else if p < k < bstart {
            assert(s[k] == pad[k - p - 1]);
        } else if bstart <= k < bend {
            assert(s[k] == b[k - bstart]);
        } else if bend <= k < e {
            assert(s[k] == pad2[k - bend]);
        }
    }
    assert forall|x: int| 2 <= x <= p implies !has_image_ext(#[trigger] s.subrange(x, p)) by {
        if has_image_ext(s.subrange(x, p)) {
            lemma_ext_of_suffix(s, 2, x, p);
        }
    }
    lemma_no_image_match_single_pipe(s, p);
    lemma_image_pass_none_identity(s, 0, account, repo);
    assert(s.subrange(0, s.len() as int) =~= s);
    // the link pass matches at the start
    assert forall|k: int|
        2 <= k < p implies #[trigger] s[k] != '\n' && s[k] != '|' && !(s[k] == ']' && s[k + 1]
        == ']') by {
        assert(s[k] == a[k - 2]);
    }
    lemma_find_pipe_reaches(s, 2, p);
    assert(s[bstart] != ' ');
    lemma_skip_spaces_reaches(s, p + 1, bstart);
    assert forall|k: int|
        bstart <= k < e implies #[trigger] s[k] != '\n' && !(s[k] == ']' && s[k + 1]
        == ']') by {
        if k < bend {
            assert(s[k] == b[k - bstart]);
        } else {
            assert(s[k] == pad2[k - bend]);
        }
    }
    lemma_find_close_reaches(s, bstart, e);
    assert(link_match_at(s, 0) == Some((p, bstart, e)));
    // the trailing padding is stripped from the page name
    lemma_skip_spaces_back_reaches(s, bstart, e, bend);
    assert(e + 2 == s.len());
    assert(link_pass_from(s, e + 2, account, repo) == Seq::<char>::empty());
    assert(link_pass_from(s, 0, account, repo) =~= link_markdown(a, b, account, repo));
}

/// The image pass finds no image form anywhere inside a link form, whatever
/// follows it: its only pipe closes no image url, and the search never
/// reads past the form's closing `]]`.
proof fn lemma_link_form_no_image_match(
    a: Seq<char>,
    pad: Seq<char>,
    b: Seq<char>,
    pad2: Seq<char>,
    z: Seq<char>,
)
    requires
        !has_image_ext(a),
        lacks(a, '|'),
        lacks(b, '|'),
        forall|k: int| 0 <= k < pad.len() ==> #[trigger] pad[k] == ' ',
        forall|k: int| 0 <= k < pad2.len() ==> #[trigger] pad2[k] == ' ',
    ensures
        forall|x: int|
            0 <= x < ("[["@ + a + "|"@ + pad + b + pad2 + "]]"@).len() ==> #[trigger] img_match_at(
                "[["@ + a + "|"@ + pad + b + pad2 + "]]"@ + z,
                x,
            ) is None,
{
    reveal_strlit("[[");
    reveal_strlit("|");
    reveal_strlit("]]");
    let form = "[["@ + a + "|"@ + pad + b + pad2 + "]]"@;
    let s = form + z;
    let al = a.len() as int;
    let p = 2 + al;
    let bstart = p + 1 + pad.len() as int;
    let bend = bstart + b.len() as int;
    let e = bend + pad2.len() as int;
    assert(form.len() == e + 2);
    assert(s[0] == '[' && s[1] == '[');
    assert(forall|k: int| 2 <= k < p ==> #[trigger] s[k] == a[k - 2]);
    assert(s[p] == '|');
    assert(forall|k: int| p + 1 <= k < bstart ==> #[trigger] s[k] == pad[k - p - 1]);
    assert(forall|k: int| bstart <= k < bend ==> #[trigger] s[k] == b[k - bstart]);
    assert(forall|k: int| bend <= k < e ==> #[trigger] s[k] == pad2[k - bend]);
    assert(s[e] == ']' && s[e + 1] == ']');
    assert(s.subrange(2, p) =~= a);
    assert forall|k: int| 0 <= k < e implies (#[trigger] s[k] == '|' <==> k == p) by {
        if 2 <= k < p {
            assert(s[k] == a[k - 2]);
        } else if p < k < bstart {
            assert(s[k] == pad[k - p - 1]);
        } else if bstart <= k < bend {
            assert(s[k] == b[k - bstart]);
        } else if bend <= k < e {
            assert(s[k] == pad2[k - bend]);
        }
    }
    assert forall|x: int| 0 <= x < e + 2 implies #[trigger] img_match_at(s, x) is None by {
        if x + 2 <= s.len() && s[x] == '[' && s[x + 1] == '[' {
            assert(x + 2 <= e);
            assert forall|k: int|
                x + 2 <= k < e implies !(#[trigger] s[k] == '|' && has_image_ext(
                s.subrange(x + 2, k),
            )) by {
                if s[k] == '|' {
                    assert(k == p);
                    if has_image_ext(s.subrange(x + 2, p)) {
                        lemma_ext_of_suffix(s, 2, x + 2, p);
                    }
                }
            }
            lemma_find_img_pipe_stops(s, x + 2, x + 2, e);
        }
    }
}

/// The link pass resolves a link form at the head of the text into its
/// markdown link and goes on right after the form, whatever follows it.
proof fn lemma_link_form_match_prefix(
    a: Seq<char>,
    pad: Seq<char>,
    b: Seq<char>,
    pad2: Seq<char>,
    tail: Seq<char>,
    account: Seq<char>,
    repo: Seq<char>,
)
    requires
        lacks(a, '|'),
        lacks(a, '\n'),
        lacks(a, ']'),
        lacks(b, '|'),
        lacks(b, '\n'),
        lacks(b, ']'),
        b.len() > 0 ==> b[0] != ' ',
        b.len() > 0 ==> b[b.len() - 1] != ' ',
        b.len() == 0 ==> pad2.len() == 0,
        forall|k: int| 0 <= k < pad.len() ==> #[trigger] pad[k] == ' ',
        forall|k: int| 0 <= k < pad2.len() ==> #[trigger] pad2[k] == ' ',
    ensures
        link_pass_from("[["@ + a + "|"@ + pad + b + pad2 + "]]"@ + tail, 0, account, repo)
            == link_markdown(a, b, account, repo) + link_pass_from(
            "[["@ + a + "|"@ + pad + b + pad2 + "]]"@ + tail,
            ("[["@ + a + "|"@ + pad + b + pad2 + "]]"@).len() as int,
            account,
            repo,
        ),
{
    reveal_strlit("[[");
    reveal_strlit("|");
    reveal_strlit("]]");
    let form = "[["@ + a + "|"@ + pad + b + pad2 + "]]"@;
    let s = form + tail;
    let al = a.len() as int;
    let p = 2 + al;
    let bstart = p + 1 + pad.len() as int;
    let bend = bstart + b.len() as int;
    let e = bend + pad2.len() as int;
    assert(form.len() == e + 2);
    assert(s[0] == '[' && s[1] == '[');
    assert(forall|k: int| 2 <= k < p ==> #[trigger] s[k] == a[k - 2]);
    assert(s[p] == '|');
    assert(forall|k: int| p + 1 <= k < bstart ==> #[trigger] s[k] == pad[k - p - 1]);
    assert(forall|k: int| bstart <= k < bend ==> #[trigger] s[k] == b[k - bstart]);
    assert(forall|k: int| bend <= k < e ==> #[trigger] s[k] == pad2[k - bend]);
    assert(s[e] == ']' && s[e + 1] == ']');
    assert(s.subrange(2, p) =~= a);
    assert(s.subrange(bstart, bend) =~= b);
    assert forall|k: int|
        2 <= k < p implies #[trigger] s[k] != '\n' && s[k] != '|' && !(s[k] == ']' && s[k + 1]
        == ']') by {
        assert(s[k] == a[k - 2]);
    }
    lemma_find_pipe_reaches(s, 2, p);
    assert(s[bstart] != ' ');
    lemma_skip_spaces_reaches(s, p + 1, bstart);
    assert forall|k: int|
        bstart <= k < e implies #[trigger] s[k] != '\n' && !(s[k] == ']' && s[k + 1]
        == ']') by {
        if k < bend {
            assert(s[k] == b[k - bstart]);
        } else {
            assert(s[k] == pad2[k - bend]);
        }
    }
    lemma_find_close_reaches(s, bstart, e);
    assert(link_match_at(s, 0) == Some((p, bstart, e)));
    lemma_skip_spaces_back_reaches(s, bstart, e, bend);
}

/// Law: a link bracket form at the head of the text becomes its markdown
/// link, and the rest of the text converts independently after it. Together
/// with `lemma_convert_prepend` and `lemma_convert_image_then` this rewrites
/// a text holding any number of forms occurrence by occurrence.
pub proof fn lemma_convert_link_then(
    a: Seq<char>,
    pad: Seq<char>,
    b: Seq<char>,
    pad2: Seq<char>,
    z: Seq<char>,
    account: Seq<char>,
    repo: Seq<char>,
)
    requires
        !has_image_ext(a),
        lacks(a, '|'),
        lacks(a, '\n'),
        lacks(a, ']'),
        lacks(b, '|'),
        lacks(b, '\n'),
        lacks(b, ']'),
        b.len() > 0 ==> b[0] != ' ',
        b.len() > 0 ==> b[b.len() - 1] != ' ',
        b.len() == 0 ==> pad2.len() == 0,
        forall|k: int| 0 <= k < pad.len() ==> #[trigger] pad[k] == ' ',
        forall|k: int| 0 <= k < pad2.len() ==> #[trigger] pad2[k] == ' ',
    ensures
        spec_convert("[["@ + a + "|"@ + pad + b + pad2 + "]]"@ + z, account, repo)
            == link_markdown(a, b, account, repo) + spec_convert(z, account, repo),
{
    let form = "[["@ + a + "|"@ + pad + b + pad2 + "]]"@;
    let s = form + z;
    // the image pass copies the form and converts only the tail
    lemma_link_form_no_image_match(a, pad, b, pad2, z);
    lemma_image_pass_none_until(s, 0, form.len() as int, account, repo);
    assert(s.subrange(0, form.len() as int) =~= form);
    lemma_cat_image_pass(form, z, 0, account, repo);
    let ipz = image_pass_from(z, 0, account, repo);
    assert(image_pass_from(s, 0, account, repo) == form + ipz);
    // the link pass resolves the form and goes on with the converted tail
    lemma_link_form_match_prefix(a, pad, b, pad2, ipz, account, repo);
    lemma_cat_link_pass(form, ipz, 0, account, repo);
}

/// Converts the bracket-style wiki image and link forms in `md` to plain
/// markdown, resolving image forms first and link forms on the result, as
/// `spec_convert` states. Text that matches neither form is kept unchanged.
pub fn github_wiki_markdown_to_pure_markdown(md: &str, account: &str, repo: &str) -> (r: String)
    ensures
        r@ == spec_convert(md@, account@, repo@),
{
    let images_done = image_pass_exec(md, account, repo);
    link_pass_exec(images_done.as_str(), account, repo)
}

} // verus!
