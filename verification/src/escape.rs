//! Escaping of pattern-matching wildcards for substring queries handed to a
//! `LIKE`-style backend: the two wildcard characters `%` and `_` are each
//! prefixed with an escape character, chosen so that it does not already occur
//! in the query. The choice starts from `\` and falls back to a fixed list of
//! punctuation characters; when the query contains the default and every
//! fallback character, the default is kept (that corner is left unresolved by
//! design, since no unambiguous escape character exists then).

use vstd::prelude::*;
use vstd::string::StringExecFns;

use crate::text::contains_char;
use crate::text::contains_seq;
use crate::text::found_at;
use crate::text::push_char;

verus! {

/// The fixed list of fallback escape characters, tried in order.
pub open spec fn fallback_chars() -> Seq<char> {
    seq!['!', '@', '#', '$', '^', '&', '*', '-', '=', '+', '|', '~', '`', '/', '?', '>', '<', ',']
}

/// Index of the first fallback character at or after position `i` that does
/// not occur in `s`.
pub open spec fn first_unused_from(s: Seq<char>, i: int) -> Option<int>
    decreases fallback_chars().len() - i + 1,
{
    if i < 0 || i >= fallback_chars().len() {
        None
    } else if !s.contains(fallback_chars()[i]) {
        Some(i)
    } else {
        first_unused_from(s, i + 1)
    }
}

/// Index of the first fallback character that does not occur in `s`.
pub open spec fn first_unused(s: Seq<char>) -> Option<int> {
    first_unused_from(s, 0)
}

/// The escape character chosen for a query: `\` when the query does not
/// contain it, otherwise the first fallback character absent from the query,
/// and `\` again when the query exhausts the whole list.
pub open spec fn chosen_escape(s: Seq<char>) -> char {
    if !s.contains('\\') {
        '\\'
    } else {
        match first_unused(s) {
            Some(k) => fallback_chars()[k],
            None => '\\',
        }
    }
}

/// The fallback character at the given index.
fn fallback_char(i: usize) -> (c: char)
    requires
        i < fallback_chars().len(),
    ensures
        c == fallback_chars()[i as int],
{
    match i {
        0 => '!',
        1 => '@',
        2 => '#',
        3 => '$',
        4 => '^',
        5 => '&',
        6 => '*',
        7 => '-',
        8 => '=',
        9 => '+',
        10 => '|',
        11 => '~',
        12 => '`',
        13 => '/',
        14 => '?',
        15 => '>',
        16 => '<',
        _ => ',',
    }
}

/// Pick the escape character for a query: `\` when the query does not contain
/// it, otherwise the first fallback character absent from the query, and `\`
/// again when the query exhausts the whole list.
pub fn choose_escape_char(value: &str) -> (c: char)
    ensures
        c == chosen_escape(value@),
        c != '%' && c != '_',
{
    if !contains_char(value, '\\') {
        return '\\';
    }
    let mut i: usize = 0;
    while i < 18
        invariant
            0 <= i <= 18,
            value@.contains('\\'),
            first_unused(value@) == first_unused_from(value@, i as int),
        decreases 18 - i,
    {
        let cand = fallback_char(i);
        if !contains_char(value, cand) {
            return cand;
        }
        i += 1;
    }
    '\\'
}

/// Whether a query needs escaping at all: it contains a wildcard character.
pub fn needs_escaping(value: &str) -> (b: bool)
    ensures
        b == (value@.contains('%') || value@.contains('_')),
{
    contains_char(value, '%') || contains_char(value, '_')
}

/// The escaped form of one character.
pub open spec fn escaped_char(c: char, esc: char) -> Seq<char> {
    if c == '%' || c == '_' {
        seq![esc, c]
    } else {
        seq![c]
    }
}

/// The escaped form of the first `i` characters of `s`.
pub open spec fn escaped_prefix(s: Seq<char>, esc: char, i: int) -> Seq<char>
    decreases i,
{
    if i <= 0 {
        Seq::empty()
    } else {
        escaped_prefix(s, esc, i - 1) + escaped_char(s[i - 1], esc)
    }
}

/// The escaped form of a whole query: every `%` and `_` prefixed with the
/// escape character, all other characters kept as they are.
pub open spec fn escaped(s: Seq<char>, esc: char) -> Seq<char> {
    escaped_prefix(s, esc, s.len() as int)
}

/// Escape the wildcard characters of a query with the given escape character.
pub fn escape_pattern(value: &str, esc: char) -> (r: String)
    ensures
        r@ == escaped(value@, esc),
{
    let len = value.unicode_len();
    let mut out = String::new();
    let mut i: usize = 0;
    while i < len
        invariant
            0 <= i <= len,
            len == value@.len(),
            out@ == escaped_prefix(value@, esc, i as int),
        decreases len - i,
    {
        let c = value.get_char(i);
        if c == '%' || c == '_' {
            push_char(&mut out, esc);
        }
        push_char(&mut out, c);
        proof {
            assert(out@ =~= escaped_prefix(value@, esc, i + 1));
        }
        i += 1;
    }
    out
}

/// Build the pattern a `LIKE`-style backend is handed for a substring query,
/// wrapped in `%` on both sides: a query without wildcard characters is used
/// as it stands and needs no escape clause; one with wildcards has them
/// escaped with the chosen escape character, which the backend must be told.
pub fn build_search_pattern(value: &str) -> (r: (String, Option<char>))
    ensures
        r.1 is Some <==> (value@.contains('%') || value@.contains('_')),
        (r.1 matches Some(esc) ==> esc == chosen_escape(value@) && r.0@ == seq!['%'] + escaped(
            value@,
            esc,
        ) + seq!['%']),
        r.1 is None ==> r.0@ == seq!['%'] + value@ + seq!['%'],
{
    let mut p = String::new();
    push_char(&mut p, '%');
    if needs_escaping(value) {
        let esc = choose_escape_char(value);
        let body = escape_pattern(value, esc);
        p.append(body.as_str());
        push_char(&mut p, '%');
        proof {
            assert(p@ =~= seq!['%'] + escaped(value@, esc) + seq!['%']);
        }
        (p, Some(esc))
    } else {
        p.append(value);
        push_char(&mut p, '%');
        proof {
            assert(p@ =~= seq!['%'] + value@ + seq!['%']);
        }
        (p, None)
    }
}

/// Pattern matching as a `LIKE`-style backend reads a pattern: `%` matches
/// any run of characters, `_` matches exactly one character, the escape
/// character makes the character after it literal, and any other character
/// matches itself.
pub open spec fn like_match(p: Seq<char>, t: Seq<char>, esc: char) -> bool
    decreases p.len(), t.len(),
{
    if p.len() == 0 {
        t.len() == 0
    } else if p[0] == esc && p.len() >= 2 {
        t.len() > 0 && t[0] == p[1] && like_match(p.skip(2), t.skip(1), esc)
    } else if p[0] == '%' {
        like_match(p.skip(1), t, esc) || (t.len() > 0 && like_match(p, t.skip(1), esc))
    } else if p[0] == '_' {
        t.len() > 0 && like_match(p.skip(1), t.skip(1), esc)
    } else {
        t.len() > 0 && t[0] == p[0] && like_match(p.skip(1), t.skip(1), esc)
    }
}

/// A lone `%` matches every text.
proof fn lemma_percent_matches_all(t: Seq<char>, esc: char)
    requires
        esc != '%',
    ensures
        like_match(seq!['%'], t, esc),
    decreases t.len(),
{
    let p = seq!['%'];
    assert(p.skip(1) =~= Seq::<char>::empty());
    if t.len() == 0 {
        assert(like_match(p.skip(1), t, esc));
    } else {
        lemma_percent_matches_all(t.skip(1), esc);
    }
}

/// The escaped form of a query can be peeled at its head: it is the escaped
/// form of the first character followed by the escaped form of the rest.
proof fn lemma_escaped_head(s: Seq<char>, esc: char, i: int)
    requires
        1 <= i <= s.len(),
    ensures
        escaped_prefix(s, esc, i) == escaped_char(s[0], esc) + escaped_prefix(
            s.skip(1),
            esc,
            i - 1,
        ),
    decreases i,
{
    if i == 1 {
        assert(escaped_prefix(s, esc, 0) =~= Seq::<char>::empty());
        assert(escaped_prefix(s.skip(1), esc, 0) =~= Seq::<char>::empty());
        assert(escaped_prefix(s, esc, 1) =~= escaped_char(s[0], esc) + escaped_prefix(
            s.skip(1),
            esc,
            0,
        ));
    } else {
        lemma_escaped_head(s, esc, i - 1);
        assert(s[i - 1] == s.skip(1)[i - 2]);
        assert(escaped_prefix(s, esc, i) =~= escaped_char(s[0], esc) + escaped_prefix(
            s.skip(1),
            esc,
            i - 1,
        ));
    }
}

/// Followed by a trailing `%`, the escaped form of a query matches a text
/// exactly when the query is literally a prefix of the text.
proof fn lemma_escaped_prefix_match(q: Seq<char>, t: Seq<char>, esc: char)
    requires
        esc != '%',
        esc != '_',
        !q.contains(esc),
    ensures
        like_match(escaped(q, esc) + seq!['%'], t, esc) == (q.len() <= t.len() && t.subrange(
            0,
            q.len() as int,
        ) == q),
    decreases q.len(),
{
    if q.len() == 0 {
        assert(escaped(q, esc) + seq!['%'] =~= seq!['%']);
        lemma_percent_matches_all(t, esc);
        assert(t.subrange(0, 0) =~= q);
    } else {
        let c = q[0];
        let q1 = q.skip(1);
        assert(c != esc) by {
            if c == esc {
                assert(q.contains(esc));
            }
        }
        assert(!q1.contains(esc)) by {
            if q1.contains(esc) {
                let k = choose|k: int| 0 <= k < q1.len() && q1[k] == esc;
                assert(q[k + 1] == esc);
                assert(q.contains(esc));
            }
        }
        lemma_escaped_head(q, esc, q.len() as int);
        assert(escaped(q, esc) == escaped_char(c, esc) + escaped(q1, esc)) by {
            assert(escaped_prefix(q.skip(1), esc, q.len() - 1) == escaped(q1, esc));
        }
        let rest = escaped(q1, esc) + seq!['%'];
        let p = escaped(q, esc) + seq!['%'];
        if t.len() > 0 {
            lemma_escaped_prefix_match(q1, t.skip(1), esc);
        }
        if c == '%' || c == '_' {
            assert(p =~= seq![esc, c] + rest);
            assert(p[0] == esc && p.len() >= 2 && p[1] == c);
            assert(p.skip(2) =~= rest);
        } else {
            assert(p =~= seq![c] + rest);
            assert(p[0] == c && p[0] != esc && p[0] != '%' && p[0] != '_');
            assert(p.skip(1) =~= rest);
        }
        let lhs_lit = q.len() <= t.len() && t.subrange(0, q.len() as int) == q;
        let rhs_lit = t.len() > 0 && t[0] == c && q1.len() <= t.skip(1).len() && t.skip(
            1,
        ).subrange(0, q1.len() as int) == q1;
        assert(lhs_lit == rhs_lit) by {
            if lhs_lit {
                assert(t.subrange(0, q.len() as int)[0] == q[0]);
                assert(t.skip(1).subrange(0, q1.len() as int) =~= q1) by {
                    assert forall|k: int| 0 <= k < q1.len() implies t.skip(1).subrange(
                        0,
                        q1.len() as int,
                    )[k] == q1[k] by {
                        assert(t.subrange(0, q.len() as int)[k + 1] == q[k + 1]);
                    }
                }
            } else if rhs_lit {
                assert(t.subrange(0, q.len() as int) =~= q) by {
                    assert forall|k: int| 0 <= k < q.len() implies t.subrange(
                        0,
                        q.len() as int,
                    )[k] == q[k] by {
                        if k > 0 {
                            assert(t.skip(1).subrange(0, q1.len() as int)[k - 1] == q1[k - 1]);
                        }
                    }
                }
                assert(false);
            }
        }
    }
}

/// A leading `%` absorbs any prefix of the text: the whole pattern matches
/// exactly when the rest of it matches some suffix.
proof fn lemma_percent_prefix(p: Seq<char>, t: Seq<char>, esc: char)
    requires
        esc != '%',
    ensures
        like_match(seq!['%'] + p, t, esc) == (exists|i: int|
            0 <= i <= t.len() && like_match(p, #[trigger] t.skip(i), esc)),
    decreases t.len(),
{
    let full = seq!['%'] + p;
    assert(full[0] == '%');
    assert(full.skip(1) =~= p);
    assert(t.skip(0) =~= t);
    if t.len() == 0 {
        if exists|i: int| 0 <= i <= t.len() && like_match(p, #[trigger] t.skip(i), esc) {
            let i = choose|i: int| 0 <= i <= t.len() && like_match(p, #[trigger] t.skip(i), esc);
            assert(i == 0);
        }
    } else {
        lemma_percent_prefix(p, t.skip(1), esc);
        assert forall|j: int| 0 <= j <= t.skip(1).len() implies t.skip(1).skip(j) == t.skip(
            j + 1,
        ) by {
            assert(t.skip(1).skip(j) =~= t.skip(j + 1));
        }
        if like_match(full, t, esc) {
            if like_match(p, t, esc) {
                assert(like_match(p, t.skip(0), esc));
            } else {
                let j = choose|j: int|
                    0 <= j <= t.skip(1).len() && like_match(p, #[trigger] t.skip(1).skip(j), esc);
                assert(like_match(p, t.skip(j + 1), esc));
            }
        }
        if exists|i: int| 0 <= i <= t.len() && like_match(p, #[trigger] t.skip(i), esc) {
            let i = choose|i: int| 0 <= i <= t.len() && like_match(p, #[trigger] t.skip(i), esc);
            if i == 0 {
                assert(like_match(p, t, esc));
            } else {
                assert(t.skip(1).skip(i - 1) == t.skip(i));
                assert(like_match(p, t.skip(1).skip(i - 1), esc));
                assert(like_match(full, t.skip(1), esc));
            }
        }
    }
}

/// Escaping restores literal search: wrapped in `%` on both sides, the
/// escaped form of a query matches a text under the pattern semantics exactly
/// when the text contains the query as a literal substring — provided the
/// escape character is no wildcard and does not occur in the query, which is
/// what `choose_escape_char` picks.
pub proof fn lemma_escaping_restores_literal_search(q: Seq<char>, t: Seq<char>, esc: char)
    requires
        esc != '%',
        esc != '_',
        !q.contains(esc),
    ensures
        like_match(seq!['%'] + escaped(q, esc) + seq!['%'], t, esc) == contains_seq(t, q),
{
    let p = escaped(q, esc) + seq!['%'];
    assert(seq!['%'] + escaped(q, esc) + seq!['%'] =~= seq!['%'] + p);
    lemma_percent_prefix(p, t, esc);
    assert forall|i: int| 0 <= i <= t.len() implies like_match(p, #[trigger] t.skip(i), esc) == (i
        + q.len() <= t.len() && t.subrange(i, i + q.len()) == q) by {
        lemma_escaped_prefix_match(q, t.skip(i), esc);
        if i + q.len() <= t.len() {
            assert(t.skip(i).subrange(0, q.len() as int) =~= t.subrange(i, i + q.len()));
        }
    }
    if like_match(seq!['%'] + p, t, esc) {
        let i = choose|i: int| 0 <= i <= t.len() && like_match(p, #[trigger] t.skip(i), esc);
        assert(found_at(t, q, i));
    }
    if contains_seq(t, q) {
        let i = choose|i: int| found_at(t, q, i);
        assert(like_match(p, t.skip(i), esc));
    }
}

/// A query without wildcard characters is its own escaped form.
proof fn lemma_escaped_no_wildcards(q: Seq<char>, esc: char, i: int)
    requires
        0 <= i <= q.len(),
        !q.contains('%'),
        !q.contains('_'),
    ensures
        escaped_prefix(q, esc, i) == q.subrange(0, i),
    decreases i,
{
    if i > 0 {
        lemma_escaped_no_wildcards(q, esc, i - 1);
        assert(q[i - 1] != '%' && q[i - 1] != '_') by {
            if q[i - 1] == '%' {
                assert(q.contains('%'));
            }
            if q[i - 1] == '_' {
                assert(q.contains('_'));
            }
        }
        assert(escaped_prefix(q, esc, i) =~= q.subrange(0, i));
    } else {
        assert(escaped_prefix(q, esc, 0) =~= q.subrange(0, 0));
    }
}

/// A found fallback index lies within the fallback list.
proof fn lemma_first_unused_bounds(s: Seq<char>, i: int)
    requires
        0 <= i,
    ensures
        match first_unused_from(s, i) {
            Some(k) => i <= k < fallback_chars().len(),
            None => true,
        },
    decreases fallback_chars().len() - i + 1,
{
    if i < fallback_chars().len() && s.contains(fallback_chars()[i]) {
        lemma_first_unused_bounds(s, i + 1);
    }
}

/// The chosen escape character is never a wildcard character.
proof fn lemma_chosen_escape_no_wildcard(q: Seq<char>)
    ensures
        chosen_escape(q) != '%',
        chosen_escape(q) != '_',
{
    if q.contains('\\') {
        match first_unused(q) {
            Some(k) => {
                lemma_first_unused_bounds(q, 0);
                assert(fallback_chars()[k] != '%' && fallback_chars()[k] != '_');
            },
            None => {},
        }
    }
}

/// The pattern built for a query that needs no escaping matches exactly the
/// texts containing the query literally, under any escape character that does
/// not occur in the query — as when the backend is given no escape clause.
pub proof fn lemma_plain_pattern_matches_literally(q: Seq<char>, t: Seq<char>, esc: char)
    requires
        esc != '%',
        esc != '_',
        !q.contains(esc),
        !q.contains('%'),
        !q.contains('_'),
    ensures
        like_match(seq!['%'] + q + seq!['%'], t, esc) == contains_seq(t, q),
{
    lemma_escaped_no_wildcards(q, esc, q.len() as int);
    assert(q.subrange(0, q.len() as int) =~= q);
    lemma_escaping_restores_literal_search(q, t, esc);
}

/// The escaped pattern built for a query, read with the chosen escape
/// character, matches exactly the texts containing the query literally —
/// whenever the chosen escape character does not occur in the query, which
/// only a query containing `\` and the whole fallback list can defeat.
pub proof fn lemma_escaped_pattern_matches_literally(q: Seq<char>, t: Seq<char>)
    requires
        !q.contains(chosen_escape(q)),
    ensures
        like_match(
            seq!['%'] + escaped(q, chosen_escape(q)) + seq!['%'],
            t,
            chosen_escape(q),
        ) == contains_seq(t, q),
{
    lemma_chosen_escape_no_wildcard(q);
    lemma_escaping_restores_literal_search(q, t, chosen_escape(q));
}

} // verus!
