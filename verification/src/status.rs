use vstd::prelude::*;

verus! {

/// Classification of a fetched wiki page, derived from its title text alone.
#[derive(Clone, Copy, Debug, PartialEq, Eq, Structural)]
pub enum PageCondition {
    /// An ordinary page that can be mirrored as-is.
    Normal,
    /// The upstream site reported that the page does not exist.
    NotFound,
    /// The upstream site refused the request because of rate limiting.
    RateLimited,
}

/// `needle` occurs as a contiguous run of characters inside `hay`.
pub open spec fn contains_seq(hay: Seq<char>, needle: Seq<char>) -> bool {
    exists|k: int|
        0 <= k <= hay.len() - needle.len() && #[trigger] hay.subrange(
            k,
            k + needle.len() as int,
        ) == needle
}

/// The classification rule: a title containing "Page not found" marks a
/// missing page; a title that is exactly the upstream rate-limit page title
/// marks rate limiting; every other title is normal.
pub open spec fn spec_classify(title: Seq<char>) -> PageCondition {
    if contains_seq(title, "Page not found"@) {
        PageCondition::NotFound
    } else if title == "Rate limit · GitHub"@ {
        PageCondition::RateLimited
    } else {
        PageCondition::Normal
    }
}

/// The characters of `needle` appear in `hay` starting at position `k`.
fn matches_at(hay: &str, hay_len: usize, needle: &str, needle_len: usize, k: usize) -> (b: bool)
    requires
        hay_len == hay@.len(),
        needle_len == needle@.len(),
        k + needle_len <= hay_len,
    ensures
        b == (hay@.subrange(k as int, k as int + needle@.len() as int) == needle@),
{
    let mut j: usize = 0;
    while j < needle_len
        invariant
            hay_len == hay@.len(),
            needle_len == needle@.len(),
            k + needle_len <= hay_len,
            j <= needle_len,
            forall|x: int| 0 <= x < j ==> hay@[k + x] == needle@[x],
        decreases needle_len - j,
    {
        if hay.get_char(k + j) != needle.get_char(j) {
            proof {
                assert(hay@.subrange(k as int, k as int + needle@.len() as int)[j as int]
                    != needle@[j as int]);
            }
            return false;
        }
        j += 1;
    }
    proof {
        assert(hay@.subrange(k as int, k as int + needle@.len() as int) =~= needle@);
    }
    true
}

/// Substring search, verified against `contains_seq`.
pub fn contains_sub(hay: &str, needle: &str) -> (b: bool)
    ensures
        b == contains_seq(hay@, needle@),
{
    let hay_len: usize = hay.unicode_len();
    let needle_len: usize = needle.unicode_len();
    if needle_len > hay_len {
        return false;
    }
    if needle_len == 0 {
        proof {
            assert(hay@.subrange(0, 0 + needle@.len() as int) =~= needle@);
        }
        return true;
    }
    let limit: usize = hay_len - needle_len;
    let mut k: usize = 0;
    while k <= limit
        invariant
            hay_len == hay@.len(),
            needle_len == needle@.len(),
            1 <= needle_len <= hay_len,
            limit == hay_len - needle_len,
            k <= limit + 1,
            forall|x: int|
                0 <= x < k ==> #[trigger] hay@.subrange(x, x + needle@.len() as int) != needle@,
        decreases limit + 1 - k,
    {
        if matches_at(hay, hay_len, needle, needle_len, k) {
            return true;
        }
        k += 1;
    }
    false
}

/// Character-for-character string equality, verified against view equality.
pub fn str_eq(a: &str, b: &str) -> (r: bool)
    ensures
        r == (a@ == b@),
{
    let a_len: usize = a.unicode_len();
    let b_len: usize = b.unicode_len();
    if a_len != b_len {
        return false;
    }
    let mut i: usize = 0;
    while i < a_len
        invariant
            a_len == a@.len(),
            a_len == b@.len(),
            i <= a_len,
            forall|x: int| 0 <= x < i ==> a@[x] == b@[x],
        decreases a_len - i,
    {
        if a.get_char(i) != b.get_char(i) {
            return false;
        }
        i += 1;
    }
    proof {
        assert(a@ =~= b@);
    }
    true
}

/// Derives the page condition from the title text. Total and deterministic:
/// the result is fixed by the title alone, as `spec_classify` states.
pub fn classify(title: &str) -> (c: PageCondition)
    ensures
        c == spec_classify(title@),
{
    if contains_sub(title, "Page not found") {
        PageCondition::NotFound
    } else if str_eq(title, "Rate limit · GitHub") {
        PageCondition::RateLimited
    } else {
        PageCondition::Normal
    }
}

} // verus!
