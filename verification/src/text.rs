//! Verified text utilities: literal substring search over the character view
//! of a string, and extraction of an HTML clipboard fragment from between its
//! marker comments.

use vstd::prelude::*;

verus! {

/// The needle occurs in the haystack starting at character position `i`.
pub open spec fn found_at(hay: Seq<char>, needle: Seq<char>, i: int) -> bool {
    &&& 0 <= i
    &&& i + needle.len() <= hay.len()
    &&& hay.subrange(i, i + needle.len()) == needle
}

/// The needle occurs somewhere in the haystack.
pub open spec fn contains_seq(hay: Seq<char>, needle: Seq<char>) -> bool {
    exists|i: int| found_at(hay, needle, i)
}

/// Position of the first occurrence of the needle at or after position `i`.
pub open spec fn find_from(hay: Seq<char>, needle: Seq<char>, i: int) -> Option<int>
    decreases hay.len() - i + 1,
{
    if i < 0 || i + needle.len() > hay.len() {
        None
    } else if found_at(hay, needle, i) {
        Some(i)
    } else {
        find_from(hay, needle, i + 1)
    }
}

/// Position of the first occurrence of the needle, if any.
pub open spec fn find_first(hay: Seq<char>, needle: Seq<char>) -> Option<int> {
    find_from(hay, needle, 0)
}

/// `find_from` returns the least match position at or after `i`,
/// and `None` exactly when there is no match at or after `i`.
pub proof fn lemma_find_from_spec(hay: Seq<char>, needle: Seq<char>, i: int)
    requires
        0 <= i,
    ensures
        match find_from(hay, needle, i) {
            Some(j) => i <= j && found_at(hay, needle, j)
                && forall|k: int| i <= k < j ==> !found_at(hay, needle, k),
            None => forall|k: int| i <= k ==> !found_at(hay, needle, k),
        },
    decreases hay.len() - i + 1,
{
    if i + needle.len() > hay.len() {
        assert forall|k: int| i <= k implies !found_at(hay, needle, k) by {
            assert(k + needle.len() > hay.len());
        }
    } else if found_at(hay, needle, i) {
    } else {
        lemma_find_from_spec(hay, needle, i + 1);
    }
}

/// The needle matches at position `i` of the haystack (callers pass the
/// needle's length separately so the bound is an executable quantity).
fn matches_at(hay: &str, needle: &str, i: usize, nlen: usize) -> (b: bool)
    requires
        nlen == needle@.len(),
        i + nlen <= hay@.len(),
        hay@.len() <= usize::MAX,
    ensures
        b == found_at(hay@, needle@, i as int),
{
    let mut j: usize = 0;
    while j < nlen
        invariant
            0 <= j <= nlen,
            nlen == needle@.len(),
            i + nlen <= hay@.len(),
            hay@.len() <= usize::MAX,
            forall|k: int| 0 <= k < j ==> hay@[i + k] == needle@[k],
        decreases nlen - j,
    {
        if hay.get_char(i + j) != needle.get_char(j) {
            proof {
                assert(hay@.subrange(i as int, i + needle@.len())[j as int] == hay@[i + j]);
                assert(hay@.subrange(i as int, i + needle@.len()) != needle@);
            }
            return false;
        }
        j += 1;
    }
    proof {
        assert(hay@.subrange(i as int, i + needle@.len()) =~= needle@);
    }
    true
}

/// Character position of the first occurrence of `needle` in `hay`, if any.
pub fn find_substring(hay: &str, needle: &str) -> (r: Option<usize>)
    ensures
        match r {
            Some(i) => find_first(hay@, needle@) == Some(i as int),
            None => find_first(hay@, needle@) is None,
        },
{
    let hlen = hay.unicode_len();
    let nlen = needle.unicode_len();
    if nlen > hlen {
        return None;
    }
    if nlen == 0 {
        proof {
            assert(hay@.subrange(0, 0) =~= needle@);
        }
        return Some(0);
    }
    let mut i: usize = 0;
    while i <= hlen - nlen
        invariant
            0 <= i <= hlen - nlen + 1,
            1 <= nlen <= hlen,
            hlen == hay@.len(),
            nlen == needle@.len(),
            find_first(hay@, needle@) == find_from(hay@, needle@, i as int),
        decreases hlen - nlen - i + 1,
    {
        if matches_at(hay, needle, i, nlen) {
            return Some(i);
        }
        i += 1;
    }
    None
}

/// Whether `hay` contains `needle` as a literal, case-sensitive substring.
pub fn contains_substring(hay: &str, needle: &str) -> (b: bool)
    ensures
        b == contains_seq(hay@, needle@),
{
    let r = find_substring(hay, needle);
    proof {
        lemma_find_from_spec(hay@, needle@, 0);
    }
    match r {
        Some(_) => true,
        None => false,
    }
}

/// Relies on std's `String::push`: appends exactly the given character.
#[verifier::external_body]
pub fn push_char(s: &mut String, c: char)
    ensures
        final(s)@ == old(s)@.push(c),
{
    s.push(c);
}

/// Extract the fragment of an HTML clipboard payload that sits between the
/// start and end marker comments; a payload without both markers is returned
/// unchanged. Inputs whose end marker begins before the start marker's text
/// has ended are excluded, since no fragment lies between the markers then.
pub fn parse_html_clipboard(value: String) -> (r: String)
    requires
        match (find_first(value@, "<!--StartFragment-->"@), find_first(value@, "<!--EndFragment-->"@)) {
            (Some(s), Some(e)) => s + "<!--StartFragment-->"@.len() <= e,
            _ => true,
        },
    ensures
        match (find_first(value@, "<!--StartFragment-->"@), find_first(value@, "<!--EndFragment-->"@)) {
            (Some(s), Some(e)) => r@ == value@.subrange(s + "<!--StartFragment-->"@.len(), e),
            _ => r@ == value@,
        },
{
    let start = find_substring(value.as_str(), "<!--StartFragment-->");
    let end = find_substring(value.as_str(), "<!--EndFragment-->");
    match (start, end) {
        (Some(s), Some(e)) => {
            proof {
                reveal_strlit("<!--StartFragment-->");
                reveal_strlit("<!--EndFragment-->");
                lemma_find_from_spec(value@, "<!--StartFragment-->"@, 0);
                lemma_find_from_spec(value@, "<!--EndFragment-->"@, 0);
                assert(found_at(value@, "<!--EndFragment-->"@, e as int));
                assert(e + "<!--EndFragment-->"@.len() <= value@.len());
            }
            let fragment = value.as_str().substring_char(s + 20, e);
            fragment.to_owned()
        },
        _ => value,
    }
}

/// Whether the string contains the given character.
pub fn contains_char(s: &str, c: char) -> (b: bool)
    ensures
        b == s@.contains(c),
{
    let len = s.unicode_len();
    let mut i: usize = 0;
    while i < len
        invariant
            0 <= i <= len,
            len == s@.len(),
            forall|k: int| 0 <= k < i ==> s@[k] != c,
        decreases len - i,
    {
        if s.get_char(i) == c {
            return true;
        }
        i += 1;
    }
    false
}

} // verus!
