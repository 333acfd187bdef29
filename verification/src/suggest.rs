//! Typeahead suggestions: match positions, next words and completions.

use crate::batch;
use crate::batch::Batch;
use crate::dedup;
use crate::distance;
use crate::distance::Distance;
use crate::grouping;
use crate::order;
use crate::order::Ranked;
use crate::schema;
use crate::schema::{
    ChunkHit, DistanceKind, HitModel, StoreError, SuggestHit, SuggestQuery, SuggestResult,
};
use crate::search;
use crate::text;
use crate::words;
use vstd::prelude::*;
use vstd::string::*;
use vstd::utf8::*;

verus! {

/// The lowercase form of a text, by the Unicode rules that `str::to_lowercase` follows.
pub uninterp spec fn lowercase(s: Seq<char>) -> Seq<char>;

/// The lowercase form of an ASCII character.
pub open spec fn ascii_lower(c: char) -> char {
    if 'A' <= c <= 'Z' {
        ((c as u32) + 32) as char
    } else {
        c
    }
}

/// `str::to_lowercase`: the lowercase form of a text. It depends on the text alone, every
/// character has a lowercase form of at least one character, and ASCII letters map to ASCII
/// letters, all other ASCII characters to themselves.
pub assume_specification[ str::to_lowercase ](s: &str) -> (r: String)
    ensures
        r@ == lowercase(s@),
        s@.len() > 0 ==> r@.len() > 0,
        is_ascii_chars(s@) ==> r@ == s@.map_values(|c: char| ascii_lower(c)),
;

/// The views of a list of texts.
pub open spec fn text_views(s: Seq<&str>) -> Seq<Seq<char>> {
    s.map_values(|t: &str| t@)
}

/// The byte position of the first occurrence of the query in the lowered content.
pub open spec fn match_start(lower: Seq<char>, query_lower: Seq<char>) -> Option<int> {
    words::next_occurrence(encode_utf8(lower), encode_utf8(query_lower), 0)
}

/// How many bytes the lowercase form of each character takes, each lowered by itself.
pub open spec fn widths_of(content: Seq<char>) -> Seq<usize> {
    Seq::new(
        content.len(),
        |k: int| encode_utf8(lowercase(seq![content[k]])).len() as usize,
    )
}

/// The character whose lowered form holds the byte `at`, counted from character `i` on, and the
/// place of the byte in that form; the end of the text when there is none.
pub open spec fn char_at(widths: Seq<usize>, at: int, i: int) -> (int, int)
    decreases widths.len() - i,
{
    if i < 0 || i >= widths.len() {
        (widths.len() as int, at)
    } else if at < widths[i] {
        (i, at)
    } else {
        char_at(widths, at - widths[i], i + 1)
    }
}

/// The first character behind those from `i` on whose lowered forms hold `need` bytes.
pub open spec fn char_behind(widths: Seq<usize>, need: int, i: int) -> int
    decreases widths.len() - i,
{
    if i < 0 || i >= widths.len() {
        widths.len() as int
    } else if need <= 0 {
        i
    } else {
        char_behind(widths, need - widths[i], i + 1)
    }
}

/// The characters of a text that the bytes `at..at + len` of its lowered form come from: the first
/// one, and the one behind the last.
pub open spec fn chars_of_match(widths: Seq<usize>, at: int, len: int) -> (int, int) {
    let (i, inner) = char_at(widths, at, 0);
    (i, char_behind(widths, inner + len, i))
}

/// The characters of the content that the first match of the lowered query comes from.
pub open spec fn first_match(
    lower: Seq<char>,
    widths: Seq<usize>,
    query_lower: Seq<char>,
) -> Option<(int, int)> {
    match match_start(lower, query_lower) {
        None => None,
        Some(at) => Some(chars_of_match(widths, at, encode_utf8(query_lower).len() as int)),
    }
}

/// `r` describes a match of the characters `found.0..found.1` of the content, or its absence: its
/// byte offsets in the content, with the end moved to the end of the word, and up to five words
/// behind it.
pub open spec fn describes(
    content: Seq<char>,
    found: Option<(int, int)>,
    r: (Option<usize>, Option<usize>, Vec<String>),
) -> bool {
    match found {
        None => r.0 is None && r.1 is None && r.2@.len() == 0,
        Some((start, end)) => {
            let word_end = end + words::word_len(content.skip(end));
            &&& r.0 is Some
            &&& r.0->0 == encode_utf8(content.take(start)).len()
            &&& r.1 is Some
            &&& r.1->0 == encode_utf8(content.take(word_end)).len()
            &&& grouping::views(r.2@) == words::first_of(words::words(content.skip(word_end)), 5)
        },
    }
}

/// How many bytes the lowercase form of each character takes. In an ASCII text it is one each.
pub fn lowered_widths(content: &str) -> (r: Vec<usize>)
    ensures
        r@ == widths_of(content@),
        is_ascii_chars(content@) ==> forall|k: int| 0 <= k < r.len() ==> #[trigger] r@[k] == 1,
{
    let chars = text::chars_of(content);
    let mut out: Vec<usize> = Vec::new();
    let mut i: usize = 0;
    while i < chars.len()
        invariant
            i <= chars.len(),
            chars@ == content@,
            out.len() == i,
            forall|k: int| 0 <= k < i ==> #[trigger] out@[k] == widths_of(content@)[k],
            is_ascii_chars(content@) ==> forall|k: int| 0 <= k < i ==> #[trigger] out@[k] == 1,
        decreases chars.len() - i,
    {
        let mut one = String::new();
        one.push(chars[i]);
        let lowered = one.as_str().to_lowercase();
        let width = lowered.as_str().as_bytes().len();
        proof {
            assert(one@ =~= seq![content@[i as int]]);
            if is_ascii_chars(content@) {
                assert('\0' <= content@[i as int] <= '\u{7f}');
                assert forall|k: int| 0 <= k < one@.len() implies '\0' <= #[trigger] one@[k]
                    <= '\u{7f}' by {}
                lemma_ascii_lower(one@);
                words::ascii_texts_have_no_inner_bytes(lowered@, 0);
            }
        }
        out.push(width);
        i = i + 1;
    }
    assert(out@ =~= widths_of(content@));
    out
}

/// The characters of a text that the bytes `at..at + len` of its lowered form come from.
pub fn locate_match(widths: &Vec<usize>, at: usize, len: usize) -> (r: (usize, usize))
    requires
        at + len <= usize::MAX,
    ensures
        (r.0 as int, r.1 as int) == chars_of_match(widths@, at as int, len as int),
        r.0 <= r.1 <= widths.len(),
{
    let mut i: usize = 0;
    let mut inner: usize = at;
    while i < widths.len() && inner >= widths[i]
        invariant
            i <= widths.len(),
            inner <= at,
            char_at(widths@, at as int, 0) == char_at(widths@, inner as int, i as int),
        decreases widths.len() - i,
    {
        inner = inner - widths[i];
        i = i + 1;
    }
    let start = i;
    let mut need: usize = inner + len;
    let ghost whole = need as int;
    while i < widths.len() && need > 0
        invariant
            start <= i <= widths.len(),
            char_at(widths@, at as int, 0) == (start as int, inner as int),
            whole == inner + len,
            char_behind(widths@, whole, start as int) == char_behind(widths@, need as int, i as int),
        decreases widths.len() - i,
    {
        if need <= widths[i] {
            assert(char_behind(widths@, need - widths@[i as int], i + 1) == i + 1);
            return (start, i + 1);
        }
        need = need - widths[i];
        i = i + 1;
    }
    (start, i)
}

/// Describes a match of the characters `start..end` of the content.
pub fn describe_match(content: &str, start: usize, end: usize) -> (r: (
    Option<usize>,
    Option<usize>,
    Vec<String>,
))
    requires
        start <= end <= content@.len(),
    ensures
        describes(content@, Some((start as int, end as int)), r),
{
    let chars = text::chars_of(content);
    let n = words::word_length(&chars, end);
    let head = content.substring_char(0, start);
    let whole = content.substring_char(0, end + n);
    proof {
        assert(content@.subrange(0, start as int) =~= content@.take(start as int));
        assert(content@.subrange(0, end + n) =~= content@.take(end + n));
    }
    let next_words = words::words_from(content, &chars, end + n, 5);
    (Some(head.as_bytes().len()), Some(whole.as_bytes().len()), next_words)
}

/// Finds the first occurrence of the lowered query in the lowered content, and describes it in the
/// content itself. `widths` holds how many bytes of the lowered content each character takes.
pub fn find_match_in(
    content: &str,
    lower: &str,
    widths: &Vec<usize>,
    query_lower: &str,
) -> (r: (Option<usize>, Option<usize>, Vec<String>))
    requires
        widths.len() == content@.len(),
    ensures
        describes(content@, first_match(lower@, widths@, query_lower@), r),
{
    let hay = lower.as_bytes();
    let needle = query_lower.as_bytes();
    let needle_len = needle.len();
    let hay_len = hay.len();
    match words::find_from(hay, needle, 0) {
        None => (None, None, Vec::new()),
        Some(at) => {
            proof {
                words::lemma_next_occurrence(hay@, needle@, 0);
            }
            let (start, end) = locate_match(widths, at, needle_len);
            describe_match(content, start, end)
        },
    }
}

/// Finds the first occurrence of the lowered query in the content, ignoring case: the byte offsets
/// of the match in the content, extended to the end of the word it lies in, and up to five words
/// behind it. In an ASCII content the offsets are those in its lowered form.
pub fn find_match_and_next_words(content: &str, query_lower: &str) -> (r: (
    Option<usize>,
    Option<usize>,
    Vec<String>,
))
    ensures
        describes(
            content@,
            first_match(lowercase(content@), widths_of(content@), query_lower@),
            r,
        ),
        is_ascii_chars(content@) ==> describes(
            content@,
            ascii_match(content@, query_lower@),
            r,
        ),
{
    let lower = content.to_lowercase();
    let widths = lowered_widths(content);
    proof {
        if is_ascii_chars(content@) {
            lemma_ascii_lower(content@);
            lemma_ascii_match(content@, lower@, widths@, query_lower@);
        }
    }
    find_match_in(content, lower.as_str(), &widths, query_lower)
}

/// The first match of the lowered query in an ASCII content, whose bytes are its characters.
pub open spec fn ascii_match(content: Seq<char>, query_lower: Seq<char>) -> Option<(int, int)> {
    match match_start(content.map_values(|c: char| ascii_lower(c)), query_lower) {
        None => None,
        Some(at) => Some((at, at + encode_utf8(query_lower).len() as int)),
    }
}

proof fn lemma_ascii_lower(s: Seq<char>)
    requires
        is_ascii_chars(s),
    ensures
        is_ascii_chars(s.map_values(|c: char| ascii_lower(c))),
{
    let t = s.map_values(|c: char| ascii_lower(c));
    assert forall|i: int| 0 <= i < t.len() implies '\0' <= #[trigger] t[i] <= '\u{7f}' by {
        let c = s[i];
        assert('\0' <= c <= '\u{7f}');
        if 'A' <= c <= 'Z' {
            let u = ((c as u32) + 32) as u32;
            assert(97 <= u <= 122);
            assert((u as char) as u32 == u);
        }
    }
}

proof fn lemma_ascii_match(
    content: Seq<char>,
    lower: Seq<char>,
    widths: Seq<usize>,
    query_lower: Seq<char>,
)
    requires
        is_ascii_chars(lower),
        lower == content.map_values(|c: char| ascii_lower(c)),
        widths.len() == content.len(),
        forall|k: int| 0 <= k < widths.len() ==> #[trigger] widths[k] == 1,
    ensures
        first_match(lower, widths, query_lower) == ascii_match(content, query_lower),
{
    let hay = encode_utf8(lower);
    let needle = encode_utf8(query_lower);
    words::lemma_next_occurrence(hay, needle, 0);
    words::ascii_texts_have_no_inner_bytes(lower, 0);
    match match_start(lower, query_lower) {
        None => {},
        Some(at) => {
            single_bytes_keep_their_places(widths, at, needle.len() as int);
        },
    }
}

/// Where every lowered character takes one byte, a match stands in the text where it stands in the
/// lowered form.
pub proof fn single_bytes_keep_their_places(widths: Seq<usize>, at: int, len: int)
    requires
        forall|k: int| 0 <= k < widths.len() ==> #[trigger] widths[k] == 1,
        0 <= at,
        0 <= len,
        at + len <= widths.len(),
    ensures
        chars_of_match(widths, at, len) == (at, at + len),
{
    lemma_single_at(widths, at, 0);
    lemma_single_behind(widths, len, at);
}

proof fn lemma_single_at(widths: Seq<usize>, at: int, i: int)
    requires
        forall|k: int| 0 <= k < widths.len() ==> #[trigger] widths[k] == 1,
        0 <= at,
        0 <= i,
        i + at <= widths.len(),
    ensures
        char_at(widths, at, i) == (i + at, 0int),
    decreases at,
{
    if at > 0 {
        lemma_single_at(widths, at - 1, i + 1);
    }
}

proof fn lemma_single_behind(widths: Seq<usize>, need: int, i: int)
    requires
        forall|k: int| 0 <= k < widths.len() ==> #[trigger] widths[k] == 1,
        0 <= need,
        0 <= i,
        i + need <= widths.len(),
    ensures
        char_behind(widths, need, i) == i + need,
    decreases need,
{
    if need > 0 {
        lemma_single_behind(widths, need - 1, i + 1);
    }
}

/// How many bytes of the lowered form the first `n` characters take.
pub open spec fn lowered_len(widths: Seq<usize>, n: int) -> int
    decreases n,
{
    if n <= 0 {
        0
    } else {
        lowered_len(widths, n - 1) + widths[n - 1]
    }
}

/// The characters of a match are those, and only those, whose lowered forms hold its bytes.
pub proof fn a_match_covers_its_bytes(widths: Seq<usize>, at: int, len: int)
    requires
        0 <= at,
        0 < len,
        at + len <= lowered_len(widths, widths.len() as int),
    ensures
        ({
            let (start, end) = chars_of_match(widths, at, len);
            &&& 0 <= start < end <= widths.len()
            &&& lowered_len(widths, start) <= at < lowered_len(widths, start + 1)
            &&& lowered_len(widths, end - 1) < at + len <= lowered_len(widths, end)
        }),
{
    lemma_char_at(widths, at, 0);
    let (start, inner) = char_at(widths, at, 0);
    lemma_char_behind(widths, inner + len, start);
}

proof fn lemma_char_at(widths: Seq<usize>, at: int, i: int)
    requires
        0 <= at,
        0 <= i <= widths.len(),
        lowered_len(widths, i) + at < lowered_len(widths, widths.len() as int),
    ensures
        ({
            let (start, inner) = char_at(widths, at, i);
            &&& i <= start < widths.len()
            &&& 0 <= inner < widths[start]
            &&& lowered_len(widths, start) + inner == lowered_len(widths, i) + at
        }),
    decreases widths.len() - i,
{
    if i < widths.len() && at >= widths[i] {
        assert(lowered_len(widths, i + 1) == lowered_len(widths, i) + widths[i]);
        lemma_char_at(widths, at - widths[i], i + 1);
    }
}

proof fn lemma_char_behind(widths: Seq<usize>, need: int, i: int)
    requires
        0 < need,
        0 <= i < widths.len(),
        lowered_len(widths, i) + need <= lowered_len(widths, widths.len() as int),
    ensures
        ({
            let end = char_behind(widths, need, i);
            &&& i < end <= widths.len()
            &&& lowered_len(widths, end - 1) < lowered_len(widths, i) + need
            &&& lowered_len(widths, i) + need <= lowered_len(widths, end)
        }),
    decreases widths.len() - i,
{
    assert(lowered_len(widths, i + 1) == lowered_len(widths, i) + widths[i]);
    if need > widths[i] {
        lemma_char_behind(widths, need - widths[i], i + 1);
    } else {
        assert(char_behind(widths, need - widths[i], i + 1) == i + 1);
    }
}

/// A match starts and ends inside the content, and its end is not before its start.
pub proof fn match_lies_in_the_content(
    content: Seq<char>,
    start: int,
    end: int,
    r: (Option<usize>, Option<usize>, Vec<String>),
)
    requires
        describes(content, Some((start, end)), r),
        0 <= start <= end <= content.len(),
    ensures
        r.0->0 <= r.1->0 <= encode_utf8(content).len(),
        is_char_boundary(encode_utf8(content), r.0->0 as int),
        is_char_boundary(encode_utf8(content), r.1->0 as int),
        r.2@.len() <= 5,
{
    let after = content.skip(end);
    words::lemma_word_len(after);
    let word_end = end + words::word_len(after);
    lemma_prefix_boundary(content, start);
    lemma_prefix_boundary(content, word_end);
    let whole = content.take(word_end);
    assert(whole =~= content.take(start) + whole.skip(start));
    words::lemma_encode_concat(content.take(start), whole.skip(start));
    assert(grouping::views(r.2@).len() == r.2@.len());
}

proof fn lemma_prefix_boundary(s: Seq<char>, n: int)
    requires
        0 <= n <= s.len(),
    ensures
        encode_utf8(s.take(n)).len() <= encode_utf8(s).len(),
        is_char_boundary(encode_utf8(s), encode_utf8(s.take(n)).len() as int),
    decreases n,
{
    let bytes = encode_utf8(s);
    assert(s =~= s.take(n) + s.skip(n));
    words::lemma_encode_concat(s.take(n), s.skip(n));
    encode_utf8_valid_utf8(s);
    if n == 0 {
        assert(s.take(0) =~= Seq::<char>::empty());
    } else {
        encode_utf8_first_scalar(s);
        let t = s.drop_first();
        assert(s.take(n).drop_first() =~= t.take(n - 1));
        lemma_prefix_boundary(t, n - 1);
        assert(bytes == encode_scalar(s[0] as u32) + encode_utf8(t));
        assert(pop_first_scalar(bytes) =~= encode_utf8(t));
    }
}

/// A text followed by the first `k` of some words, each behind a space.
pub open spec fn cumulative(base: Seq<char>, ws: Seq<Seq<char>>, k: int) -> Seq<char>
    decreases k,
{
    if k <= 0 {
        base
    } else {
        cumulative(base, ws, k - 1) + seq![' '] + ws[k - 1]
    }
}

/// The completions of a match of the characters `start..end`, of growing length: the word the match
/// lies in, and it followed by one, two and three words.
pub open spec fn candidates(snippet: Seq<char>, start: int, end: int) -> Seq<Seq<char>> {
    let word_end = end + words::word_len(snippet.skip(end));
    let base = words::trimmed(snippet.subrange(start, word_end));
    let ws = words::first_of(words::words(snippet.skip(word_end)), 3);
    Seq::new(
        ws.len() + 1,
        |k: int|
            if k == 0 {
                base
            } else {
                words::trimmed(cumulative(base, ws, k))
            },
    )
}

/// The first `n` of some texts that are longer than the query.
pub open spec fn longer(cands: Seq<Seq<char>>, query_len: int, n: int) -> Seq<Seq<char>>
    decreases n,
{
    if n <= 0 {
        Seq::empty()
    } else if encode_utf8(cands[n - 1]).len() > query_len {
        longer(cands, query_len, n - 1).push(cands[n - 1])
    } else {
        longer(cands, query_len, n - 1)
    }
}

/// The completions that a match gives.
pub open spec fn completions_at(snippet: Seq<char>, start: int, end: int, query_len: int) -> Seq<
    Seq<char>,
> {
    longer(
        candidates(snippet, start, end),
        query_len,
        candidates(snippet, start, end).len() as int,
    )
}

fn push_if_longer(out: &mut Vec<String>, c: String, query_len: usize)
    ensures
        grouping::views(final(out)@) == if encode_utf8(c@).len() > query_len {
            grouping::views(old(out)@).push(c@)
        } else {
            grouping::views(old(out)@)
        },
{
    let ghost before = out@;
    let n = c.as_str().as_bytes().len();
    if n > query_len {
        out.push(c);
        assert(grouping::views(out@) =~= grouping::views(before).push(c@));
    }
}

/// Adds the completions of a match.
pub fn push_completions(
    snippet: &str,
    start: usize,
    end: usize,
    query_len: usize,
    out: &mut Vec<String>,
)
    requires
        start <= end <= snippet@.len(),
    ensures
        grouping::views(final(out)@) == grouping::views(old(out)@) + completions_at(
            snippet@,
            start as int,
            end as int,
            query_len as int,
        ),
{
    let ghost first = grouping::views(out@);
    let ghost cands = candidates(snippet@, start as int, end as int);
    let chars = text::chars_of(snippet);
    let n = words::word_length(&chars, end);
    let base = words::trim_text(snippet.substring_char(start, end + n));
    let following = words::words_from(snippet, &chars, end + n, 3);
    let ghost ws = grouping::views(following@);
    assert(cands[0] == base@);
    let mut cumulated = base.clone();
    push_if_longer(out, base, query_len);
    let mut k: usize = 0;
    proof {
        reveal_with_fuel(longer, 2);
        if encode_utf8(cands[0]).len() > query_len {
            assert(grouping::views(out@) =~= first + longer(cands, query_len as int, 1));
        } else {
            assert(grouping::views(out@) =~= first + longer(cands, query_len as int, 1));
        }
    }
    while k < following.len()
        invariant
            k <= following.len(),
            ws == grouping::views(following@),
            cands.len() == ws.len() + 1,
            forall|j: int|
                1 <= j < cands.len() ==> #[trigger] cands[j] == words::trimmed(
                    cumulative(cands[0], ws, j),
                ),
            cumulated@ == cumulative(cands[0], ws, k as int),
            grouping::views(out@) == first + longer(cands, query_len as int, k + 1),
        decreases following.len() - k,
    {
        proof {
            reveal_strlit(" ");
        }
        cumulated.append(" ");
        cumulated.append(following[k].as_str());
        proof {
            assert(" "@ =~= seq![' ']);
            assert(cumulated@ == cumulative(cands[0], ws, k + 1));
            assert(cands[k + 1] == words::trimmed(cumulated@));
        }
        let completion = words::trim_text(cumulated.as_str());
        let ghost before = grouping::views(out@);
        push_if_longer(out, completion, query_len);
        proof {
            let c = cands[k + 1];
            if encode_utf8(c).len() > query_len {
                assert(first + longer(cands, query_len as int, k + 1).push(c) =~= before.push(c));
            }
            assert(grouping::views(out@) == first + longer(cands, query_len as int, k + 2));
        }
        k = k + 1;
    }
}

/// The completions of the first `n` matches of a snippet, given where they stand in its lowered form.
pub open spec fn snippet_completions(
    snippet: Seq<char>,
    widths: Seq<usize>,
    starts: Seq<int>,
    needle_len: int,
    query_len: int,
    n: int,
) -> Seq<Seq<char>>
    decreases n,
{
    if n <= 0 {
        Seq::empty()
    } else {
        let (start, end) = chars_of_match(widths, starts[n - 1], needle_len);
        snippet_completions(snippet, widths, starts, needle_len, query_len, n - 1)
            + completions_at(snippet, start, end, query_len)
    }
}

/// The byte positions of the query's matches in a lowered snippet.
pub open spec fn match_starts(lower: Seq<char>, query_lower: Seq<char>) -> Seq<int> {
    words::occurrences(encode_utf8(lower), encode_utf8(query_lower), 0)
}

/// All completions of a snippet.
pub open spec fn completions_in(
    snippet: Seq<char>,
    lower: Seq<char>,
    widths: Seq<usize>,
    query_lower: Seq<char>,
    query_len: int,
) -> Seq<Seq<char>> {
    snippet_completions(
        snippet,
        widths,
        match_starts(lower, query_lower),
        encode_utf8(query_lower).len() as int,
        query_len,
        match_starts(lower, query_lower).len() as int,
    )
}

/// Adds the completions of a snippet, given its lowered form and how many bytes of that each
/// character takes.
pub fn push_snippet_completions(
    snippet: &str,
    lower: &str,
    widths: &Vec<usize>,
    query_lower: &str,
    query_len: usize,
    out: &mut Vec<String>,
)
    requires
        query_lower@.len() > 0,
        widths.len() == snippet@.len(),
    ensures
        grouping::views(final(out)@) == grouping::views(old(out)@) + completions_in(
            snippet@,
            lower@,
            widths@,
            query_lower@,
            query_len as int,
        ),
{
    let hay = lower.as_bytes();
    let needle = query_lower.as_bytes();
    let hay_len = hay.len();
    let needle_len = needle.len();
    let ghost starts = match_starts(lower@, query_lower@);
    proof {
        encode_utf8_first_scalar(query_lower@);
        assert(needle@.len() > 0);
        assert(starts.skip(0) =~= starts);
    }
    let mut from: usize = 0;
    let ghost done: int = 0;
    let ghost first = grouping::views(out@);
    proof {
        assert(grouping::views(out@) =~= first + snippet_completions(
            snippet@,
            widths@,
            starts,
            needle_len as int,
            query_len as int,
            0,
        ));
    }
    loop
        invariant
            from <= hay_len,
            hay_len == hay@.len(),
            needle_len == needle@.len(),
            needle_len > 0,
            hay@ == encode_utf8(lower@),
            needle@ == encode_utf8(query_lower@),
            starts == match_starts(lower@, query_lower@),
            0 <= done <= starts.len(),
            starts.skip(done) == words::occurrences(hay@, needle@, from as int),
            widths.len() == snippet@.len(),
            first == grouping::views(old(out)@),
            grouping::views(out@) == first + snippet_completions(
                snippet@,
                widths@,
                starts,
                needle_len as int,
                query_len as int,
                done,
            ),
        decreases hay_len - from,
    {
        proof {
            words::lemma_next_occurrence(hay@, needle@, from as int);
        }
        match words::find_from(hay, needle, from) {
            None => {
                assert(starts.skip(done).len() == 0);
                assert(done == starts.len());
                return;
            },
            Some(at) => {
                let end = at + needle_len;
                proof {
                    assert(starts.skip(done)[0] == at);
                    assert(starts[done] == at);
                    assert(starts.skip(done).skip(1) =~= words::occurrences(
                        hay@,
                        needle@,
                        end as int,
                    ));
                    assert(starts.skip(done).skip(1) =~= starts.skip(done + 1));
                }
                let (start, behind) = locate_match(widths, at, needle_len);
                push_completions(snippet, start, behind, query_len, out);
                proof {
                    let head = snippet_completions(
                        snippet@,
                        widths@,
                        starts,
                        needle_len as int,
                        query_len as int,
                        done,
                    );
                    let more = completions_at(
                        snippet@,
                        start as int,
                        behind as int,
                        query_len as int,
                    );
                    assert((first + head) + more =~= first + (head + more));
                    done = done + 1;
                }
                from = end;
            },
        }
    }
}

/// How often a key occurs among the first `n`.
pub open spec fn count_of(keys: Seq<Seq<char>>, key: Seq<char>, n: int) -> nat
    decreases n,
{
    if n <= 0 {
        0
    } else {
        count_of(keys, key, n - 1) + if keys[n - 1] == key {
            1nat
        } else {
            0
        }
    }
}

/// Position `i` is the first with its key.
pub open spec fn is_first_seen(keys: Seq<Seq<char>>, i: int) -> bool {
    0 <= i < keys.len() && forall|j: int| 0 <= j < i ==> #[trigger] keys[j] != keys[i]
}

/// Completion order: more frequent first, then longer first, then by text.
pub open spec fn completion_before(
    texts: Seq<Seq<char>>,
    keys: Seq<Seq<char>>,
    x: int,
    y: int,
) -> bool {
    let cx = count_of(keys, keys[x], keys.len() as int);
    let cy = count_of(keys, keys[y], keys.len() as int);
    let lx = encode_utf8(texts[x]).len();
    let ly = encode_utf8(texts[y]).len();
    cx > cy || (cx == cy && (lx > ly || (lx == ly && text::text_le(texts[x], texts[y]))))
}

/// `from` lists the first position of every key once, in completion order, and `out` holds the
/// texts of the first eight.
pub open spec fn ranks_completions(
    texts: Seq<Seq<char>>,
    keys: Seq<Seq<char>>,
    from: Seq<int>,
    out: Seq<Seq<char>>,
) -> bool {
    &&& forall|k: int| 0 <= k < from.len() ==> is_first_seen(keys, #[trigger] from[k])
    &&& forall|i: int| is_first_seen(keys, i) ==> #[trigger] from.contains(i)
    &&& forall|j: int, k: int|
        #![trigger from[j], from[k]]
        0 <= j < k < from.len() ==> from[j] != from[k] && completion_before(
            texts,
            keys,
            from[j],
            from[k],
        )
    &&& out.len() == if from.len() <= 8 {
        from.len() as int
    } else {
        8
    }
    &&& forall|k: int| 0 <= k < out.len() ==> #[trigger] out[k] == texts[from[k]]
}

/// `out` is the ranking of the completions under their keys.
pub open spec fn is_ranking(
    texts: Seq<Seq<char>>,
    keys: Seq<Seq<char>>,
    out: Seq<Seq<char>>,
) -> bool {
    exists|from: Seq<int>| ranks_completions(texts, keys, from, out)
}

/// Sort key of a completion.
pub struct CompletionKey {
    pub count: usize,
    pub len: usize,
    pub text: String,
}

impl Ranked for CompletionKey {
    open spec fn before(a: Self, b: Self) -> bool {
        a.count > b.count || (a.count == b.count && (a.len > b.len || (a.len == b.len
            && text::text_le(a.text@, b.text@))))
    }

    proof fn lemma_order(a: Self, b: Self, c: Self) {
        text::text_le_is_a_linear_order(a.text@, b.text@, c.text@);
    }

    fn is_before(&self, other: &Self) -> (r: bool) {
        if self.count != other.count {
            self.count > other.count
        } else if self.len != other.len {
            self.len > other.len
        } else {
            text::str_le(self.text.as_str(), other.text.as_str())
        }
    }
}

proof fn lemma_count_of_positions(
    keys: Seq<Seq<char>>,
    key: Seq<char>,
    list: Seq<usize>,
    n: int,
    m: int,
)
    requires
        0 <= n <= keys.len(),
        0 <= m <= list.len(),
        keys.len() <= usize::MAX,
        forall|a: int, b: int|
            #![trigger list[a], list[b]]
            0 <= a < b < list.len() ==> list[a] < list[b],
        forall|a: int| 0 <= a < list.len() ==> (#[trigger] list[a]) < keys.len() && keys[list[a] as int] == key,
        forall|i: int| 0 <= i < keys.len() && #[trigger] keys[i] == key ==> list.contains(i as usize),
        forall|a: int| 0 <= a < m ==> (#[trigger] list[a]) < n,
        forall|a: int| m <= a < list.len() ==> (#[trigger] list[a]) >= n,
    ensures
        count_of(keys, key, n) == m,
    decreases n,
{
    if n > 0 {
        if keys[n - 1] == key {
            assert(list.contains((n - 1) as usize));
            let a = choose|a: int| 0 <= a < list.len() && list[a] == (n - 1) as usize;
            assert(a < m);
            assert(a == m - 1) by {
                if a < m - 1 {
                    assert(list[a] < list[m - 1]);
                }
            }
            assert forall|b: int| 0 <= b < m - 1 implies (#[trigger] list[b]) < n - 1 by {
                assert(list[b] < list[m - 1]);
            }
            lemma_count_of_positions(keys, key, list, n - 1, m - 1);
        } else {
            assert forall|b: int| 0 <= b < m implies (#[trigger] list[b]) < n - 1 by {
                if list[b] == n - 1 {
                    assert(keys[list[b] as int] == key);
                }
            }
            lemma_count_of_positions(keys, key, list, n - 1, m);
        }
    } else {
        if m > 0 {
            assert(list[0] < 0);
        }
    }
}

/// Ranks completions, given the key of each: equal keys are counted together under the first text
/// seen; the most frequent come first, longer ones in front of shorter, and at most eight.
pub fn rank_completions(texts: &Vec<String>, keys: &Vec<String>) -> (r: Vec<String>)
    requires
        texts.len() == keys.len(),
    ensures
        is_ranking(grouping::views(texts@), grouping::views(keys@), grouping::views(r@)),
{
    let ghost ts = grouping::views(texts@);
    let ghost ks = grouping::views(keys@);
    let positions = grouping::positions_by_key(keys);
    let mut sort_keys: Vec<CompletionKey> = Vec::new();
    let mut g: usize = 0;
    while g < positions.len()
        invariant
            g <= positions.len(),
            sort_keys.len() == g,
            texts.len() == keys.len(),
            ts == grouping::views(texts@),
            ks == grouping::views(keys@),
            grouping::lists_positions(ks, positions@),
            forall|h: int|
                #![trigger sort_keys@[h]]
                0 <= h < g ==> {
                    let first = positions@[h]@[0] as int;
                    &&& sort_keys@[h].count == count_of(ks, ks[first], ks.len() as int)
                    &&& sort_keys@[h].len == encode_utf8(ts[first]).len()
                    &&& sort_keys@[h].text@ == ts[first]
                },
        decreases positions.len() - g,
    {
        let list = &positions[g];
        let first = list[0];
        proof {
            assert(keys.len() <= usize::MAX);
            let key = ks[first as int];
            assert forall|a: int| 0 <= a < list@.len() implies (#[trigger] list@[a]) < ks.len()
                && ks[list@[a] as int] == key by {
                assert(ks[positions@[g as int]@[a] as int] == ks[positions@[g as int]@[0] as int]);
            }
            assert forall|i: int|
                0 <= i < ks.len() && #[trigger] ks[i] == key implies list@.contains(i as usize) by {
                assert(grouping::is_listed(positions@, i as usize));
                let h = choose|h: int|
                    0 <= h < positions@.len() && (#[trigger] positions@[h])@.contains(i as usize);
                let b = choose|b: int|
                    0 <= b < positions@[h]@.len() && positions@[h]@[b] == i as usize;
                assert(ks[i] == ks[positions@[h]@[0] as int]);
                assert(ks[i] == ks[positions@[g as int]@[0] as int]);
                assert(h == g);
            }
            lemma_count_of_positions(ks, key, list@, ks.len() as int, list@.len() as int);
        }
        let text = texts[first].clone();
        let len = text.as_str().as_bytes().len();
        sort_keys.push(CompletionKey { count: list.len(), len, text });
        g = g + 1;
    }
    let order = order::sorted_positions(&sort_keys);
    let ghost from = Seq::new(order@.len(), |k: int| positions@[order@[k] as int]@[0] as int);
    let mut out: Vec<String> = Vec::new();
    let mut k: usize = 0;
    while k < order.len() && k < 8
        invariant
            k <= order.len(),
            k <= 8,
            out.len() == k,
            order::sorts(sort_keys@, order@),
            sort_keys.len() == positions.len(),
            from == Seq::new(order@.len(), |k: int| positions@[order@[k] as int]@[0] as int),
            forall|h: int|
                0 <= h < sort_keys.len() ==> (#[trigger] sort_keys@[h]).text@
                    == ts[positions@[h]@[0] as int],
            forall|j: int| 0 <= j < k ==> (#[trigger] out@[j])@ == ts[from[j]],
        decreases order.len() - k,
    {
        out.push(sort_keys[order[k]].text.clone());
        k = k + 1;
    }
    proof {
        assert(keys.len() <= usize::MAX);
        assert(positions.len() <= usize::MAX);
        assert forall|k: int| 0 <= k < from.len() implies is_first_seen(ks, #[trigger] from[k]) by {
            let g = order@[k] as int;
            assert(positions@[g]@.len() > 0);
            lemma_head_is_first_seen(ks, positions@, g);
        }
        assert forall|i: int| is_first_seen(ks, i) implies #[trigger] from.contains(i) by {
            assert(grouping::is_listed(positions@, i as usize));
            let h = choose|h: int|
                0 <= h < positions@.len() && (#[trigger] positions@[h])@.contains(i as usize);
            let b = choose|b: int| 0 <= b < positions@[h]@.len() && positions@[h]@[b] == i as usize;
            assert(ks[i] == ks[positions@[h]@[0] as int]);
            if b > 0 {
                assert(positions@[h]@[0] < positions@[h]@[b]);
            }
            assert(positions@[h]@[0] == i);
            assert(order@.contains(h as usize));
            let k = choose|k: int| 0 <= k < order@.len() && order@[k] == h as usize;
            assert(from[k] == i);
        }
        assert forall|j: int, k: int|
            #![trigger from[j], from[k]]
            0 <= j < k < from.len() implies from[j] != from[k] && completion_before(
            ts,
            ks,
            from[j],
            from[k],
        ) by {
            let x = order@[j] as int;
            let y = order@[k] as int;
            assert(order::precedes(sort_keys@, x, y));
            assert(x != y);
            assert(sort_keys@[x].text@ == ts[from[j]]);
            assert(sort_keys@[y].text@ == ts[from[k]]);
            assert(positions@[x]@.len() > 0 && positions@[y]@.len() > 0);
            assert(ks[positions@[x]@[0] as int] != ks[positions@[y]@[0] as int]);
        }
        let m = grouping::views(out@);
        assert forall|k: int| 0 <= k < m.len() implies #[trigger] m[k] == ts[from[k]] by {
            assert(out@[k]@ == ts[from[k]]);
        }
        assert(ranks_completions(ts, ks, from, m));
    }
    out
}

proof fn lemma_head_is_first_seen(ks: Seq<Seq<char>>, positions: Seq<Vec<usize>>, g: int)
    requires
        grouping::lists_positions(ks, positions),
        ks.len() <= usize::MAX,
        0 <= g < positions.len(),
    ensures
        is_first_seen(ks, positions[g]@[0] as int),
{
    assert(positions[g]@.len() > 0);
    let first = positions[g]@[0] as int;
    assert forall|j: int| 0 <= j < first implies #[trigger] ks[j] != ks[first] by {
        if ks[j] == ks[first] {
            assert(grouping::is_listed(positions, j as usize));
            let h = choose|h: int|
                0 <= h < positions.len() && (#[trigger] positions[h])@.contains(j as usize);
            let b = choose|b: int| 0 <= b < positions[h]@.len() && positions[h]@[b] == j as usize;
            assert(ks[j] == ks[positions[h]@[0] as int]);
            assert(h == g);
            if b > 0 {
                assert(positions[g]@[0] < positions[g]@[b]);
            }
        }
    }
}

/// Completions under keys that tell them apart by text alone come out without repetition.
pub proof fn completions_are_distinct(
    texts: Seq<Seq<char>>,
    keys: Seq<Seq<char>>,
    from: Seq<int>,
    out: Seq<Seq<char>>,
    j: int,
    k: int,
)
    requires
        texts.len() == keys.len(),
        forall|a: int, b: int|
            #![trigger texts[a], texts[b]]
            0 <= a < texts.len() && 0 <= b < texts.len() && texts[a] == texts[b] ==> keys[a]
                == keys[b],
        ranks_completions(texts, keys, from, out),
        0 <= j < k < out.len(),
    ensures
        out[j] != out[k],
{
    let a = from[j];
    let b = from[k];
    assert(is_first_seen(keys, a) && is_first_seen(keys, b));
    assert(a != b);
    assert(out[j] == texts[a] && out[k] == texts[b]);
    if texts[a] == texts[b] {
        assert(keys[a] == keys[b]);
    }
}

/// All completions of the first `n` snippets.
pub open spec fn all_completions(
    snippets: Seq<Seq<char>>,
    query: Seq<char>,
    n: int,
) -> Seq<Seq<char>>
    decreases n,
{
    if n <= 0 {
        Seq::empty()
    } else {
        all_completions(snippets, query, n - 1) + completions_in(
            snippets[n - 1],
            lowercase(snippets[n - 1]),
            widths_of(snippets[n - 1]),
            lowercase(query),
            encode_utf8(query).len() as int,
        )
    }
}

/// `out` holds the ranked completions of a query in some snippets.
pub open spec fn completes(
    query: Seq<char>,
    snippets: Seq<Seq<char>>,
    out: Seq<Seq<char>>,
) -> bool {
    let texts = all_completions(snippets, query, snippets.len() as int);
    is_ranking(texts, texts.map_values(|t: Seq<char>| lowercase(t)), out)
}

/// The ranked completions of a query in some snippets: the words that matches lie in, and these
/// words continued by up to three more, the most frequent first, at most eight.
pub fn extract_completions(query: &str, snippets: Vec<&str>) -> (r: Vec<String>)
    requires
        snippets@.len() == 0 || query@.len() > 0,
    ensures
        completes(query@, text_views(snippets@), grouping::views(r@)),
{
    let ghost views = text_views(snippets@);
    let query_lower = query.to_lowercase();
    let query_len = query.as_bytes().len();
    let mut texts: Vec<String> = Vec::new();
    let mut i: usize = 0;
    assert(grouping::views(texts@) =~= Seq::<Seq<char>>::empty());
    while i < snippets.len()
        invariant
            i <= snippets.len(),
            views == text_views(snippets@),
            snippets@.len() == 0 || query@.len() > 0,
            query_lower@ == lowercase(query@),
            query@.len() > 0 ==> query_lower@.len() > 0,
            query_len == encode_utf8(query@).len(),
            grouping::views(texts@) == all_completions(views, query@, i as int),
        decreases snippets.len() - i,
    {
        let snippet = snippets[i];
        assert(views[i as int] == snippet@);
        let lower = snippet.to_lowercase();
        let widths = lowered_widths(snippet);
        push_snippet_completions(
            snippet,
            lower.as_str(),
            &widths,
            query_lower.as_str(),
            query_len,
            &mut texts,
        );
        i = i + 1;
    }
    let mut keys: Vec<String> = Vec::new();
    let mut i: usize = 0;
    while i < texts.len()
        invariant
            i <= texts.len(),
            keys.len() == i,
            forall|k: int| 0 <= k < i ==> (#[trigger] keys@[k])@ == lowercase(texts@[k]@),
        decreases texts.len() - i,
    {
        keys.push(texts[i].as_str().to_lowercase());
        i = i + 1;
    }
    proof {
        assert(grouping::views(keys@) =~= grouping::views(texts@).map_values(
            |t: Seq<char>| lowercase(t),
        ));
    }
    rank_completions(&texts, &keys)
}

/// Hit `j` of a suggestion describes the chunk at `i`.
pub open spec fn suggests(h: SuggestHit, chunk: ChunkHit, query_lower: Seq<char>) -> bool {
    &&& h.id@ == chunk.doc_id@
    &&& dedup::optional_view(h.snippet) == Some(chunk.content@)
    &&& describes(
        chunk.content@,
        first_match(lowercase(chunk.content@), widths_of(chunk.content@), query_lower),
        (h.match_start, h.match_end, h.next_words),
    )
}

/// The contents of the first five chunks of a ranking.
pub open spec fn top_contents(hits: Seq<ChunkHit>, from: Seq<usize>) -> Seq<Seq<char>> {
    Seq::new(
        if from.len() <= 5 {
            from.len()
        } else {
            5
        },
        |k: int| hits[from[k] as int].content@,
    )
}

/// `from` lists the best chunk of each document once, nearest first.
pub open spec fn ranks_documents(hits: Seq<ChunkHit>, from: Seq<usize>) -> bool {
    &&& grouping::lists_best(dedup::hit_ids(hits), dedup::hit_ranks(hits), from)
    &&& forall|j: int, k: int|
        #![trigger from[j], from[k]]
        0 <= j < k < from.len() ==> hits[from[j] as int].distance.place()
            <= hits[from[k] as int].distance.place()
}

/// `r` is the suggestion of a ranking: the number of documents, the first `count` of them, and the
/// completions in the contents of the first five.
pub open spec fn is_suggestion(
    hits: Seq<ChunkHit>,
    from: Seq<usize>,
    query: Seq<char>,
    count: int,
    r: SuggestResult,
) -> bool {
    &&& r.total_approx == from.len()
    &&& r.hits@.len() == if from.len() <= count {
        from.len() as int
    } else {
        count
    }
    &&& forall|k: int|
        0 <= k < r.hits@.len() ==> suggests(
            #[trigger] r.hits@[k],
            hits[from[k] as int],
            lowercase(query),
        )
    &&& completes(query, top_contents(hits, from), grouping::views(r.completions@))
}

/// The documents of some chunk hits: the position of each document's best chunk, nearest first.
pub fn rank_documents(hits: &Vec<ChunkHit>) -> (from: Vec<usize>)
    ensures
        ranks_documents(hits@, from@),
{
    let mut ids: Vec<String> = Vec::new();
    let mut ranks: Vec<i64> = Vec::new();
    let mut i: usize = 0;
    while i < hits.len()
        invariant
            i <= hits.len(),
            ids.len() == i,
            ranks.len() == i,
            forall|k: int| 0 <= k < i ==> (#[trigger] ids@[k])@ == hits@[k].doc_id@,
            forall|k: int| 0 <= k < i ==> (#[trigger] ranks@[k]) == hits@[k].distance.place(),
        decreases hits.len() - i,
    {
        ids.push(hits[i].doc_id.clone());
        ranks.push(hits[i].distance.order_place() as i64);
        i = i + 1;
    }
    assert(grouping::views(ids@) =~= dedup::hit_ids(hits@));
    assert(ranks@ =~= dedup::hit_ranks(hits@));
    let from = grouping::ranked_best_by_key(&ids, &ranks);
    proof {
        assert forall|j: int, k: int|
            #![trigger from@[j], from@[k]]
            0 <= j < k < from@.len() implies hits@[from@[j] as int].distance.place()
            <= hits@[from@[k] as int].distance.place() by {
            assert(dedup::is_best_chunk(hits@, from@[j] as int));
            assert(dedup::is_best_chunk(hits@, from@[k] as int));
        }
    }
    from
}

/// Reduces chunk hits to documents and builds their suggestion.
pub fn build_suggest_result(hits: &Vec<ChunkHit>, query: &SuggestQuery) -> (r: SuggestResult)
    requires
        hits.len() == 0 || query.query_text@.len() > 0,
    ensures
        exists|from: Seq<usize>| #[trigger]
            ranks_documents(hits@, from) && is_suggestion(
                hits@,
                from,
                query.query_text@,
                query.count as int,
                r,
            ),
{
    let from = rank_documents(hits);
    proof {
        assert forall|k: int| 0 <= k < from.len() implies (#[trigger] from@[k]) < hits.len() by {
            assert(dedup::is_best_chunk(hits@, from@[k] as int));
        }
    }
    let query_lower = query.query_text.as_str().to_lowercase();
    let mut out: Vec<SuggestHit> = Vec::new();
    let mut k: usize = 0;
    while k < from.len() && k < query.count
        invariant
            k <= from.len(),
            k <= query.count,
            out.len() == k,
            query_lower@ == lowercase(query.query_text@),
            forall|k: int| 0 <= k < from.len() ==> (#[trigger] from@[k]) < hits.len(),
            forall|j: int|
                0 <= j < k ==> suggests(
                    #[trigger] out@[j],
                    hits@[from@[j] as int],
                    lowercase(query.query_text@),
                ),
        decreases from.len() - k,
    {
        let hit = &hits[from[k]];
        let (match_start, match_end, next_words) = find_match_and_next_words(
            hit.content.as_str(),
            query_lower.as_str(),
        );
        out.push(
            SuggestHit {
                id: hit.doc_id.clone(),
                snippet: Some(hit.content.clone()),
                match_start,
                match_end,
                next_words,
            },
        );
        k = k + 1;
    }
    let contents = top_snippets(hits, &from);
    proof {
        assert(contents@.len() == top_contents(hits@, from@).len());
        if from.len() > 0 {
            assert(from@[0] < hits.len());
        }
    }
    let completions = extract_completions(query.query_text.as_str(), contents);
    let r = SuggestResult { total_approx: from.len(), completions, hits: out };
    assert(is_suggestion(hits@, from@, query.query_text@, query.count as int, r));
    r
}

fn top_snippets<'a>(hits: &'a Vec<ChunkHit>, from: &Vec<usize>) -> (r: Vec<&'a str>)
    requires
        forall|k: int| 0 <= k < from.len() ==> (#[trigger] from@[k]) < hits.len(),
    ensures
        text_views(r@) == top_contents(hits@, from@),
{
    let mut contents: Vec<&'a str> = Vec::new();
    let mut k: usize = 0;
    while k < from.len() && k < 5
        invariant
            k <= from.len(),
            k <= 5,
            contents.len() == k,
            forall|k: int| 0 <= k < from.len() ==> (#[trigger] from@[k]) < hits.len(),
            forall|j: int|
                0 <= j < k ==> (#[trigger] contents@[j])@ == hits@[from@[j] as int].content@,
        decreases from.len() - k,
    {
        contents.push(hits[from[k]].content.as_str());
        k = k + 1;
    }
    assert(text_views(contents@) =~= top_contents(hits@, from@));
    contents
}

/// How many rows a suggestion scans: room for several chunks per document, at most two hundred.
pub fn scan_limit(count: usize) -> (r: usize)
    ensures
        r == if (count + 1) * 5 <= 200 {
            (count + 1) * 5
        } else {
            200
        },
        r <= 200,
        count <= 39 ==> r == 5 * count + 5,
        count >= 39 ==> r == 200,
{
    if count < 40 {
        (count + 1) * 5
    } else {
        200
    }
}

/// What a suggestion does next with the outcome of its full-text scan.
#[derive(Debug)]
pub enum SuggestStep {
    /// Build the suggestion from these hits.
    Build(Vec<ChunkHit>),
    /// Scan for substrings instead.
    Fallback,
    /// Give up.
    Fail(StoreError),
}

/// What follows a full-text scan that failed: the substring scan when the index does not exist, else
/// the failure.
pub fn after_failed_scan(stage: &str, message: &str) -> (r: SuggestStep)
    ensures
        search::tells_missing_index(message@) <==> r is Fallback,
        !(r is Build),
        !search::tells_missing_index(message@) ==> (r matches SuggestStep::Fail(e) && e.message()
            == stage@ + message@),
{
    if search::is_missing_index(message) {
        SuggestStep::Fallback
    } else {
        let mut m = stage.to_owned();
        m.append(message);
        SuggestStep::Fail(StoreError::Internal(m))
    }
}

/// What follows a full-text scan that succeeded: the substring scan when a query found nothing, else
/// the suggestion.
pub fn after_scan(batches: &Vec<Batch>, query: &SuggestQuery) -> (r: SuggestStep)
    requires
        batch::all_well_formed(batches@),
    ensures
        ({
            let hits = batch::fts_hits(batches@, batches@.len() as int);
            if hits.len() == 0 && query.query_text@.len() > 0 {
                r is Fallback
            } else {
                r matches SuggestStep::Build(h) && schema::models(h@) == hits
            }
        }),
        !(r is Fail),
        query.query_text@.len() == 0 ==> r is Build,
        r matches SuggestStep::Build(h) ==> h@.len() > 0 || query.query_text@.len() == 0,
{
    let hits = batch::batches_to_fts_hits(batches);
    assert(schema::models(hits@).len() == hits@.len());
    if hits.is_empty() && !query.query_text.as_str().is_empty() {
        SuggestStep::Fallback
    } else {
        SuggestStep::Build(hits)
    }
}

/// Row `i` of a batch contains the lowered query, ignoring case.
pub open spec fn contains_query(b: Batch, query_lower: Seq<char>, i: int) -> bool {
    text::occurs(lowercase(b.content->0@[i]@), query_lower)
}

/// The hits of the first `n` rows that contain the query, at distance zero.
pub open spec fn substring_rows(b: Batch, query_lower: Seq<char>, n: int) -> Seq<HitModel>
    decreases n,
{
    if n <= 0 {
        Seq::empty()
    } else if contains_query(b, query_lower, n - 1) {
        substring_rows(b, query_lower, n - 1).push(
            batch::hit_in_row(
                b,
                n - 1,
                Distance { rank: 0 },
                DistanceKind::Normalised,
                Seq::empty(),
                Seq::empty(),
            ),
        )
    } else {
        substring_rows(b, query_lower, n - 1)
    }
}

/// The hits of the first `n` batches that contain the query; a batch that lacks a hit column has
/// none.
pub open spec fn substring_hits_of(
    batches: Seq<Batch>,
    query_lower: Seq<char>,
    n: int,
) -> Seq<HitModel>
    decreases n,
{
    if n <= 0 {
        Seq::empty()
    } else {
        let b = batches[n - 1];
        substring_hits_of(batches, query_lower, n - 1) + if b.has_hit_columns() {
            substring_rows(b, query_lower, b.rows as int)
        } else {
            Seq::empty()
        }
    }
}

/// The hits of a plain scan whose content contains the query, ignoring case.
pub fn substring_hits(batches: &Vec<Batch>, query_text: &str) -> (hits: Vec<ChunkHit>)
    requires
        batch::all_well_formed(batches@),
    ensures
        schema::models(hits@) == substring_hits_of(
            batches@,
            lowercase(query_text@),
            batches@.len() as int,
        ),
{
    let query_lower = query_text.to_lowercase();
    let mut hits: Vec<ChunkHit> = Vec::new();
    let mut i: usize = 0;
    assert(schema::models(hits@) =~= Seq::<HitModel>::empty());
    while i < batches.len()
        invariant
            i <= batches.len(),
            batch::all_well_formed(batches@),
            query_lower@ == lowercase(query_text@),
            schema::models(hits@) == substring_hits_of(batches@, query_lower@, i as int),
        decreases batches.len() - i,
    {
        let b = &batches[i];
        let ghost start = schema::models(hits@);
        if let (Some(ids), Some(ci), Some(cc), Some(cts), Some(dtl), Some(cnt)) = (
            &b.doc_id,
            &b.chunk_index,
            &b.chunk_count,
            &b.chunk_token_start,
            &b.doc_token_len,
            &b.content,
        ) {
            let mut k: usize = 0;
            assert(schema::models(hits@) =~= start + substring_rows(*b, query_lower@, 0));
            while k < b.rows
                invariant
                    k <= b.rows,
                    b.well_formed(),
                    b.has_hit_columns(),
                    ids == b.doc_id->0,
                    ci == b.chunk_index->0,
                    cc == b.chunk_count->0,
                    cts == b.chunk_token_start->0,
                    dtl == b.doc_token_len->0,
                    cnt == b.content->0,
                    schema::models(hits@) == start + substring_rows(*b, query_lower@, k as int),
                decreases b.rows - k,
            {
                let lower = cnt[k].as_str().to_lowercase();
                if text::has_substring(lower.as_str(), query_lower.as_str()) {
                    let ghost before = hits@;
                    hits.push(
                        ChunkHit {
                            doc_id: ids[k].clone(),
                            distance: Distance::zero(),
                            distance_kind: DistanceKind::Normalised,
                            chunk_index: ci[k],
                            chunk_count: cc[k],
                            chunk_token_start: cts[k],
                            doc_token_len: dtl[k],
                            content: cnt[k].clone(),
                            embedding: Vec::new(),
                            clustering_embedding: Vec::new(),
                        },
                    );
                    proof {
                        let h = hits@.last()@;
                        assert(h.embedding =~= Seq::<u32>::empty());
                        assert(h.clustering_embedding =~= Seq::<u32>::empty());
                        assert(schema::models(hits@) =~= schema::models(before).push(h));
                        assert(start + substring_rows(*b, query_lower@, k + 1) =~= (start
                            + substring_rows(*b, query_lower@, k as int)).push(h));
                    }
                }
                k = k + 1;
            }
        } else {
            assert(start + Seq::<HitModel>::empty() =~= start);
        }
        i = i + 1;
    }
    hits
}

/// The positions that hold a key.
pub open spec fn positions_of(keys: Seq<Seq<char>>, key: Seq<char>) -> Set<int> {
    Set::new(|i: int| 0 <= i < keys.len() && keys[i] == key)
}

proof fn lemma_count_is_positions(keys: Seq<Seq<char>>, key: Seq<char>, n: int)
    requires
        0 <= n <= keys.len(),
    ensures
        Set::new(|i: int| 0 <= i < n && keys[i] == key).finite(),
        Set::new(|i: int| 0 <= i < n && keys[i] == key).len() == count_of(keys, key, n),
    decreases n,
{
    let all = Set::new(|i: int| 0 <= i < n && keys[i] == key);
    if n == 0 {
        assert(all =~= Set::<int>::empty());
    } else {
        let few = Set::new(|i: int| 0 <= i < n - 1 && keys[i] == key);
        lemma_count_is_positions(keys, key, n - 1);
        if keys[n - 1] == key {
            assert(all =~= few.insert(n - 1));
        } else {
            assert(all =~= few);
        }
    }
}

/// One completion ranks in front of another: its key is held by more positions; or by as many, and
/// it is longer; or it is as long, and comes first in the order of strings.
pub open spec fn ranks_before(
    texts: Seq<Seq<char>>,
    keys: Seq<Seq<char>>,
    x: int,
    y: int,
) -> bool {
    let a = positions_of(keys, keys[x]).len();
    let b = positions_of(keys, keys[y]).len();
    let m = encode_utf8(texts[x]).len();
    let n = encode_utf8(texts[y]).len();
    a >= b && (a == b ==> m >= n && (m == n ==> text::text_le(texts[x], texts[y])))
}

/// One of the listed positions holds the key.
pub open spec fn is_named(keys: Seq<Seq<char>>, from: Seq<int>, key: Seq<char>) -> bool {
    exists|k: int| 0 <= k < from.len() && keys[#[trigger] from[k]] == key
}

/// No position holds the key more often than it holds that of any listed one.
pub open spec fn is_outdone(keys: Seq<Seq<char>>, from: Seq<int>, key: Seq<char>) -> bool {
    forall|k: int|
        0 <= k < from.len() ==> positions_of(keys, keys[#[trigger] from[k]]).len() >= positions_of(
            keys,
            key,
        ).len()
}

/// The most frequent completions come first, those of equal frequency by length, the longer first,
/// and those of equal length in the order of strings. Each key is named once, by the first text seen
/// with it; and a key that is not named occurs no more often than any that is, of which there are
/// eight then. `from` holds the position of each.
pub proof fn frequent_completions_come_first(
    texts: Seq<Seq<char>>,
    keys: Seq<Seq<char>>,
    out: Seq<Seq<char>>,
) -> (from: Seq<int>)
    requires
        is_ranking(texts, keys, out),
        texts.len() == keys.len(),
    ensures
        out.len() <= 8,
        from.len() == out.len(),
        forall|k: int|
            0 <= k < from.len() ==> 0 <= #[trigger] from[k] < keys.len() && out[k]
                == texts[from[k]],
        forall|k: int, i: int|
            #![trigger from[k], keys[i]]
            0 <= k < from.len() && 0 <= i < from[k] ==> keys[i] != keys[from[k]],
        forall|j: int, k: int|
            #![trigger from[j], from[k]]
            0 <= j < k < from.len() ==> keys[from[j]] != keys[from[k]] && ranks_before(
                texts,
                keys,
                from[j],
                from[k],
            ),
        forall|i: int|
            0 <= i < keys.len() ==> is_named(keys, from, #[trigger] keys[i]) || (out.len() == 8
                && is_outdone(keys, from, keys[i])),
{
    let all = choose|all: Seq<int>| ranks_completions(texts, keys, all, out);
    let from = all.take(out.len() as int);
    let n = keys.len() as int;
    assert forall|k: int| 0 <= k < from.len() implies 0 <= #[trigger] from[k] < keys.len() && out[k]
        == texts[from[k]] by {
        assert(is_first_seen(keys, all[k]));
    }
    assert forall|k: int, i: int|
        #![trigger from[k], keys[i]]
        0 <= k < from.len() && 0 <= i < from[k] implies keys[i] != keys[from[k]] by {
        assert(is_first_seen(keys, all[k]));
    }
    assert forall|j: int, k: int|
        #![trigger from[j], from[k]]
        0 <= j < k < from.len() implies keys[from[j]] != keys[from[k]] && ranks_before(
        texts,
        keys,
        from[j],
        from[k],
    ) by {
        let x = all[j];
        let y = all[k];
        assert(from[j] == x && from[k] == y);
        assert(is_first_seen(keys, x) && is_first_seen(keys, y));
        assert(x != y);
        if x < y {
            assert(keys[x] != keys[y]);
        } else {
            assert(keys[y] != keys[x]);
        }
        assert(completion_before(texts, keys, x, y));
        lemma_positions(keys, keys[x]);
        lemma_positions(keys, keys[y]);
    }
    assert forall|i: int| 0 <= i < keys.len() implies is_named(keys, from, #[trigger] keys[i]) || (
    out.len() == 8 && is_outdone(keys, from, keys[i])) by {
        let f = lemma_first_seen(keys, i);
        assert(all.contains(f));
        let h = choose|h: int| 0 <= h < all.len() && all[h] == f;
        if h < out.len() {
            assert(keys[from[h]] == keys[i]);
        } else {
            lemma_positions(keys, keys[i]);
            assert forall|k: int| 0 <= k < from.len() implies positions_of(
                keys,
                keys[#[trigger] from[k]],
            ).len() >= positions_of(keys, keys[i]).len() by {
                assert(from[k] == all[k]);
                assert(all[k] != all[h]);
                assert(completion_before(texts, keys, all[k], all[h]));
                lemma_positions(keys, keys[all[k]]);
            }
        }
    }
    from
}

proof fn lemma_positions(keys: Seq<Seq<char>>, key: Seq<char>)
    ensures
        positions_of(keys, key).len() == count_of(keys, key, keys.len() as int),
{
    let n = keys.len() as int;
    lemma_count_is_positions(keys, key, n);
    assert(positions_of(keys, key) =~= Set::new(|i: int| 0 <= i < n && keys[i] == key));
}

proof fn lemma_first_seen(keys: Seq<Seq<char>>, i: int) -> (f: int)
    requires
        0 <= i < keys.len(),
    ensures
        is_first_seen(keys, f),
        keys[f] == keys[i],
    decreases i,
{
    if exists|j: int| 0 <= j < i && #[trigger] keys[j] == keys[i] {
        let j = choose|j: int| 0 <= j < i && #[trigger] keys[j] == keys[i];
        lemma_first_seen(keys, j)
    } else {
        i
    }
}

proof fn lemma_longer(cands: Seq<Seq<char>>, query_len: int, n: int, t: Seq<char>)
    requires
        0 <= n <= cands.len(),
    ensures
        longer(cands, query_len, n).contains(t) <==> encode_utf8(t).len() > query_len
            && cands.take(n).contains(t),
    decreases n,
{
    let all = longer(cands, query_len, n);
    if n > 0 {
        lemma_longer(cands, query_len, n - 1, t);
        let few = longer(cands, query_len, n - 1);
        let c = cands[n - 1];
        let x = cands.take(n);
        let y = cands.take(n - 1);
        assert(x =~= y.push(c));
        if x.contains(t) {
            let i = choose|i: int| 0 <= i < x.len() && x[i] == t;
            if i < n - 1 {
                assert(y[i] == t);
            }
        }
        if y.contains(t) {
            let i = choose|i: int| 0 <= i < y.len() && y[i] == t;
            assert(x[i] == t);
        }
        assert(x[n - 1] == c);
        if few.contains(t) {
            let i = choose|i: int| 0 <= i < few.len() && few[i] == t;
            assert(all[i] == t);
        }
        if all.contains(t) {
            let i = choose|i: int| 0 <= i < all.len() && all[i] == t;
            if i < few.len() {
                assert(few[i] == t);
            }
        }
        if encode_utf8(c).len() > query_len {
            assert(all[few.len() as int] == c);
        }
    }
}

/// A match gives exactly those of its candidates that are longer than the query.
pub proof fn completions_are_longer_than_the_query(
    snippet: Seq<char>,
    start: int,
    end: int,
    query_len: int,
    t: Seq<char>,
)
    ensures
        completions_at(snippet, start, end, query_len).contains(t) <==> encode_utf8(t).len()
            > query_len && candidates(snippet, start, end).contains(t),
{
    let c = candidates(snippet, start, end);
    lemma_longer(c, query_len, c.len() as int, t);
    assert(c.take(c.len() as int) =~= c);
}

/// The candidates of a match grow by a word at a time: the first is what the match begins, up to the
/// end of its word; each other is the one before it, a space, and the next word of the snippet; and
/// there are as many as three more words, or as many as follow.
pub proof fn candidates_grow_word_by_word(snippet: Seq<char>, start: int, end: int, word_end: int)
    requires
        0 <= start <= end <= word_end <= snippet.len(),
        forall|i: int| end <= i < word_end ==> !words::is_break(#[trigger] snippet[i]),
        word_end < snippet.len() ==> words::is_break(snippet[word_end]),
    ensures
        candidates(snippet, start, end).len() == 1 + if words::words(snippet.skip(word_end)).len()
            <= 3 {
            words::words(snippet.skip(word_end)).len() as int
        } else {
            3
        },
        candidates(snippet, start, end)[0] == words::trimmed(snippet.subrange(start, word_end)),
        forall|k: int|
            candidates(snippet, start, end)[0].len() > 0 && 1 <= k < candidates(
                snippet,
                start,
                end,
            ).len() ==> #[trigger] candidates(snippet, start, end)[k] == candidates(
                snippet,
                start,
                end,
            )[k - 1] + seq![' '] + words::words(snippet.skip(word_end))[k - 1],
{
    let after = snippet.skip(end);
    words::lemma_word_len(after);
    let n = words::word_len(after) as int;
    assert(end + n == word_end) by {
        if end + n < word_end {
            assert(after[n] == snippet[end + n]);
        }
        if end + n > word_end {
            assert(after[word_end - end] == snippet[word_end]);
        }
    }
    let c = candidates(snippet, start, end);
    let rest = snippet.skip(word_end);
    let all = words::words(rest);
    let ws = words::first_of(all, 3);
    let base = words::trimmed(snippet.subrange(start, word_end));
    words::words_hold_no_breaks(rest);
    if base.len() > 0 {
        let cut = words::trimming_takes_white_space_only(snippet.subrange(start, word_end));
        assert forall|k: int| 1 <= k < c.len() implies #[trigger] c[k] == c[k - 1] + seq![' ']
            + all[k - 1] by {
            assert forall|j: int| 0 <= j < ws.len() implies words::is_word(#[trigger] ws[j]) by {
                assert(ws[j] == all[j]);
            }
            lemma_cumulative(base, ws, k);
            lemma_cumulative(base, ws, k - 1);
            words::trimmed_texts_stay(cumulative(base, ws, k));
            words::trimmed_texts_stay(cumulative(base, ws, k - 1));
            assert(ws[k - 1] == all[k - 1]);
        }
    }
}

proof fn lemma_cumulative(base: Seq<char>, ws: Seq<Seq<char>>, k: int)
    requires
        base.len() > 0,
        !words::is_white(base[0]),
        !words::is_white(base.last()),
        0 <= k <= ws.len(),
        forall|j: int| 0 <= j < ws.len() ==> words::is_word(#[trigger] ws[j]),
    ensures
        cumulative(base, ws, k).len() > 0,
        !words::is_white(cumulative(base, ws, k)[0]),
        !words::is_white(cumulative(base, ws, k).last()),
    decreases k,
{
    if k > 0 {
        lemma_cumulative(base, ws, k - 1);
        let w = ws[k - 1];
        assert(words::is_word(w));
        let s = cumulative(base, ws, k);
        assert(s.last() == w.last());
        assert(!words::is_break(w[w.len() - 1]));
    }
}

/// A text is among the completions of a snippet: some match of the query gives it.
pub open spec fn is_completion_in(
    snippet: Seq<char>,
    lower: Seq<char>,
    widths: Seq<usize>,
    query_lower: Seq<char>,
    query_len: int,
    t: Seq<char>,
) -> bool {
    exists|at: int| #[trigger]
        words::occurrences(encode_utf8(lower), encode_utf8(query_lower), 0).contains(at)
            && completions_at(
            snippet,
            chars_of_match(widths, at, encode_utf8(query_lower).len() as int).0,
            chars_of_match(widths, at, encode_utf8(query_lower).len() as int).1,
            query_len,
        ).contains(t)
}

proof fn lemma_snippet_completions(
    snippet: Seq<char>,
    widths: Seq<usize>,
    starts: Seq<int>,
    needle_len: int,
    query_len: int,
    n: int,
    t: Seq<char>,
)
    requires
        0 <= n <= starts.len(),
    ensures
        snippet_completions(snippet, widths, starts, needle_len, query_len, n).contains(t)
            <==> exists|k: int|
            0 <= k < n && completions_at(
                snippet,
                chars_of_match(widths, #[trigger] starts[k], needle_len).0,
                chars_of_match(widths, starts[k], needle_len).1,
                query_len,
            ).contains(t),
    decreases n,
{
    let all = snippet_completions(snippet, widths, starts, needle_len, query_len, n);
    if n > 0 {
        lemma_snippet_completions(
            snippet,
            widths,
            starts,
            needle_len,
            query_len,
            n - 1,
            t,
        );
        let head = snippet_completions(snippet, widths, starts, needle_len, query_len, n - 1);
        let (start, end) = chars_of_match(widths, starts[n - 1], needle_len);
        let more = completions_at(snippet, start, end, query_len);
        lemma_in_either(head, more, t);
    }
}

proof fn lemma_in_either(a: Seq<Seq<char>>, b: Seq<Seq<char>>, t: Seq<char>)
    ensures
        (a + b).contains(t) <==> a.contains(t) || b.contains(t),
{
    let all = a + b;
    if all.contains(t) {
        let i = choose|i: int| 0 <= i < all.len() && all[i] == t;
        if i < a.len() {
            assert(a[i] == t);
        } else {
            assert(b[i - a.len()] == t);
        }
    }
    if a.contains(t) {
        let i = choose|i: int| 0 <= i < a.len() && a[i] == t;
        assert(all[i] == t);
    }
    if b.contains(t) {
        let i = choose|i: int| 0 <= i < b.len() && b[i] == t;
        assert(all[a.len() + i] == t);
    }
}

/// The completions of a snippet are what the matches of the query give, of all its matches.
pub proof fn every_match_gives_its_completions(
    snippet: Seq<char>,
    lower: Seq<char>,
    widths: Seq<usize>,
    query_lower: Seq<char>,
    query_len: int,
    t: Seq<char>,
)
    ensures
        completions_in(snippet, lower, widths, query_lower, query_len).contains(t)
            <==> is_completion_in(snippet, lower, widths, query_lower, query_len, t),
{
    let starts = match_starts(lower, query_lower);
    let n = encode_utf8(query_lower).len() as int;
    lemma_snippet_completions(snippet, widths, starts, n, query_len, starts.len() as int, t);
    if completions_in(snippet, lower, widths, query_lower, query_len).contains(t) {
        let k = choose|k: int|
            0 <= k < starts.len() && completions_at(
                snippet,
                chars_of_match(widths, #[trigger] starts[k], n).0,
                chars_of_match(widths, starts[k], n).1,
                query_len,
            ).contains(t);
        assert(starts.contains(starts[k]));
    }
    if is_completion_in(snippet, lower, widths, query_lower, query_len, t) {
        let at = choose|at: int| #[trigger]
            words::occurrences(encode_utf8(lower), encode_utf8(query_lower), 0).contains(at)
                && completions_at(
                snippet,
                chars_of_match(widths, at, n).0,
                chars_of_match(widths, at, n).1,
                query_len,
            ).contains(t);
        let k = choose|k: int| 0 <= k < starts.len() && starts[k] == at;
        assert(starts[k] == at);
    }
}

proof fn lemma_all_completions(snippets: Seq<Seq<char>>, query: Seq<char>, n: int, t: Seq<char>)
    requires
        0 <= n <= snippets.len(),
    ensures
        all_completions(snippets, query, n).contains(t) <==> exists|i: int|
            0 <= i < n && is_completion_in(
                #[trigger] snippets[i],
                lowercase(snippets[i]),
                widths_of(snippets[i]),
                lowercase(query),
                encode_utf8(query).len() as int,
                t,
            ),
    decreases n,
{
    if n > 0 {
        lemma_all_completions(snippets, query, n - 1, t);
        let s = snippets[n - 1];
        let own = completions_in(
            s,
            lowercase(s),
            widths_of(s),
            lowercase(query),
            encode_utf8(query).len() as int,
        );
        lemma_in_either(all_completions(snippets, query, n - 1), own, t);
        every_match_gives_its_completions(
            s,
            lowercase(s),
            widths_of(s),
            lowercase(query),
            encode_utf8(query).len() as int,
            t,
        );
    }
}

/// What completes a query is taken from the snippets, at a match of the query, is longer than the
/// query, and is named once, whatever its case. What a snippet offers is named, in some case, unless
/// eight completions are.
pub proof fn completions_come_from_the_snippets(
    query: Seq<char>,
    snippets: Seq<Seq<char>>,
    out: Seq<Seq<char>>,
)
    requires
        completes(query, snippets, out),
    ensures
        out.len() <= 8,
        forall|k: int|
            0 <= k < out.len() ==> encode_utf8(#[trigger] out[k]).len() > encode_utf8(query).len()
                && exists|i: int|
                0 <= i < snippets.len() && is_completion_in(
                    #[trigger] snippets[i],
                    lowercase(snippets[i]),
                    widths_of(snippets[i]),
                    lowercase(query),
                    encode_utf8(query).len() as int,
                    out[k],
                ),
        forall|j: int, k: int|
            #![trigger out[j], out[k]]
            0 <= j < k < out.len() ==> lowercase(out[j]) != lowercase(out[k]),
        forall|i: int, t: Seq<char>|
            0 <= i < snippets.len() && #[trigger] is_completion_in(
                snippets[i],
                lowercase(snippets[i]),
                widths_of(snippets[i]),
                lowercase(query),
                encode_utf8(query).len() as int,
                t,
            ) ==> out.len() == 8 || exists|k: int|
                0 <= k < out.len() && lowercase(#[trigger] out[k]) == lowercase(t),
{
    let n = snippets.len() as int;
    let texts = all_completions(snippets, query, n);
    let keys = texts.map_values(|t: Seq<char>| lowercase(t));
    let from = frequent_completions_come_first(texts, keys, out);
    assert forall|k: int| 0 <= k < out.len() implies encode_utf8(#[trigger] out[k]).len()
        > encode_utf8(query).len() && exists|i: int|
        0 <= i < snippets.len() && is_completion_in(
            #[trigger] snippets[i],
            lowercase(snippets[i]),
            widths_of(snippets[i]),
            lowercase(query),
            encode_utf8(query).len() as int,
            out[k],
        ) by {
        assert(out[k] == texts[from[k]]);
        assert(texts.contains(out[k]));
        lemma_all_completions(snippets, query, n, out[k]);
        let i = choose|i: int|
            0 <= i < n && is_completion_in(
                #[trigger] snippets[i],
                lowercase(snippets[i]),
                widths_of(snippets[i]),
                lowercase(query),
                encode_utf8(query).len() as int,
                out[k],
            );
        let s = snippets[i];
        let q = lowercase(query);
        let at = choose|at: int| #[trigger]
            words::occurrences(encode_utf8(lowercase(s)), encode_utf8(q), 0).contains(at)
                && completions_at(
                s,
                chars_of_match(widths_of(s), at, encode_utf8(q).len() as int).0,
                chars_of_match(widths_of(s), at, encode_utf8(q).len() as int).1,
                encode_utf8(query).len() as int,
            ).contains(out[k]);
        let (start, end) = chars_of_match(widths_of(s), at, encode_utf8(q).len() as int);
        completions_are_longer_than_the_query(
            s,
            start,
            end,
            encode_utf8(query).len() as int,
            out[k],
        );
    }
    assert forall|j: int, k: int|
        #![trigger out[j], out[k]]
        0 <= j < k < out.len() implies lowercase(out[j]) != lowercase(out[k]) by {
        assert(keys[from[j]] != keys[from[k]]);
    }
    assert forall|i: int, t: Seq<char>|
        0 <= i < snippets.len() && #[trigger] is_completion_in(
            snippets[i],
            lowercase(snippets[i]),
            widths_of(snippets[i]),
            lowercase(query),
            encode_utf8(query).len() as int,
            t,
        ) implies out.len() == 8 || exists|k: int|
        0 <= k < out.len() && lowercase(#[trigger] out[k]) == lowercase(t) by {
        lemma_all_completions(snippets, query, n, t);
        assert(snippets[i] == snippets[i]);
        let x = choose|x: int| 0 <= x < texts.len() && texts[x] == t;
        assert(keys[x] == lowercase(t));
        if out.len() != 8 {
            assert(is_named(keys, from, keys[x]));
            let k = choose|k: int| 0 <= k < from.len() && keys[#[trigger] from[k]] == keys[x];
            assert(out[k] == texts[from[k]]);
            assert(lowercase(out[k]) == lowercase(t));
        }
    }
}

/// The more often a completion occurs over all snippets, whatever its case, the earlier it is named.
pub proof fn a_more_frequent_completion_comes_first(
    query: Seq<char>,
    snippets: Seq<Seq<char>>,
    out: Seq<Seq<char>>,
    j: int,
    k: int,
)
    requires
        completes(query, snippets, out),
        0 <= j < k < out.len(),
    ensures
        ({
            let texts = all_completions(snippets, query, snippets.len() as int);
            let a = Set::new(|i: int| 0 <= i < texts.len() && lowercase(texts[i]) == lowercase(out[j]));
            let b = Set::new(|i: int| 0 <= i < texts.len() && lowercase(texts[i]) == lowercase(out[k]));
            &&& a.len() >= b.len()
            &&& a.len() == b.len() ==> encode_utf8(out[j]).len() >= encode_utf8(out[k]).len()
            &&& a.len() == b.len() && encode_utf8(out[j]).len() == encode_utf8(out[k]).len()
                ==> text::text_le(out[j], out[k])
        }),
{
    let texts = all_completions(snippets, query, snippets.len() as int);
    let keys = texts.map_values(|t: Seq<char>| lowercase(t));
    let from = frequent_completions_come_first(texts, keys, out);
    let a = Set::new(|i: int| 0 <= i < texts.len() && lowercase(texts[i]) == lowercase(out[j]));
    let b = Set::new(|i: int| 0 <= i < texts.len() && lowercase(texts[i]) == lowercase(out[k]));
    assert(ranks_before(texts, keys, from[j], from[k]));
    assert(a =~= positions_of(keys, keys[from[j]]));
    assert(b =~= positions_of(keys, keys[from[k]]));
}

/// In an ASCII text a match reads as the lowered query in the lowered text, and is the first that
/// does; its end is the end of the word it lies in; and the words that follow are the first five
/// behind it.
pub proof fn ascii_matches_read_as_the_query(
    content: Seq<char>,
    query_lower: Seq<char>,
    r: (Option<usize>, Option<usize>, Vec<String>),
)
    requires
        is_ascii_chars(content),
        is_ascii_chars(query_lower),
        describes(content, ascii_match(content, query_lower), r),
    ensures
        r.0 is Some <==> exists|at: int| #[trigger] reads_at(content, query_lower, at),
        r.0 is Some <==> r.1 is Some,
        r.0 is None ==> r.2@.len() == 0,
        r.0 is Some ==> {
            let start = r.0->0 as int;
            let end = r.1->0 as int;
            &&& reads_at(content, query_lower, start)
            &&& forall|at: int| 0 <= at < start ==> !#[trigger] reads_at(content, query_lower, at)
            &&& start + query_lower.len() <= end <= content.len()
            &&& forall|i: int|
                start + query_lower.len() <= i < end ==> !words::is_break(#[trigger] content[i])
            &&& end < content.len() ==> words::is_break(content[end])
            &&& r.2@.len() <= 5
            &&& r.2@.len() < 5 ==> words::words(content.skip(end)).len() == r.2@.len()
            &&& forall|k: int|
                0 <= k < r.2@.len() ==> (#[trigger] r.2@[k])@ == words::words(content.skip(end))[k]
        },
{
    let lower = content.map_values(|c: char| ascii_lower(c));
    let hay = encode_utf8(lower);
    let needle = encode_utf8(query_lower);
    lemma_ascii_lower(content);
    words::lemma_next_occurrence(hay, needle, 0);
    words::ascii_texts_have_no_inner_bytes(lower, 0);
    words::ascii_texts_have_no_inner_bytes(query_lower, 0);
    is_ascii_chars_encode_utf8(lower);
    is_ascii_chars_encode_utf8(query_lower);
    assert forall|at: int| text::occurs_at(hay, needle, at) <==> #[trigger] reads_at(
        content,
        query_lower,
        at,
    ) by {
        if text::occurs_at(hay, needle, at) {
            assert forall|i: int| 0 <= i < query_lower.len() implies ascii_lower(content[at + i])
                == #[trigger] query_lower[i] by {
                assert(hay.subrange(at, at + needle.len())[i] == hay[at + i]);
                assert(hay[at + i] as char == lower[at + i]);
                assert(needle[i] as char == query_lower[i]);
            }
        }
        if reads_at(content, query_lower, at) {
            assert forall|i: int| 0 <= i < needle.len() implies #[trigger] hay.subrange(
                at,
                at + needle.len(),
            )[i] == needle[i] by {
                assert(ascii_lower(content[at + i]) == query_lower[i]);
                assert(lower[at + i] == query_lower[i]);
            }
            assert(hay.subrange(at, at + needle.len()) =~= needle);
        }
    }
    match match_start(lower, query_lower) {
        None => {
            assert forall|at: int| !#[trigger] reads_at(content, query_lower, at) by {
                if reads_at(content, query_lower, at) {
                    assert(text::occurs_at(hay, needle, at));
                }
            }
        },
        Some(at) => {
            assert(reads_at(content, query_lower, at));
            let end = at + query_lower.len();
            let after = content.skip(end);
            words::lemma_word_len(after);
            let n = words::word_len(after) as int;
            let word_end = end + n;
            lemma_ascii_prefix(content, at);
            lemma_ascii_prefix(content, word_end);
            assert(r.0->0 == at && r.1->0 == word_end);
            assert forall|i: int| end <= i < word_end implies !words::is_break(
                #[trigger] content[i],
            ) by {
                assert(after[i - end] == content[i]);
            }
            if word_end < content.len() {
                assert(after[n] == content[word_end]);
            }
            let v = grouping::views(r.2@);
            assert(v.len() == r.2@.len());
            assert forall|k: int| 0 <= k < r.2@.len() implies (#[trigger] r.2@[k])@
                == words::words(content.skip(word_end))[k] by {
                assert(v[k] == r.2@[k]@);
            }
        },
    }
}

/// The lowered query reads in an ASCII text at a position, ignoring case.
pub open spec fn reads_at(content: Seq<char>, query_lower: Seq<char>, at: int) -> bool {
    &&& 0 <= at
    &&& at + query_lower.len() <= content.len()
    &&& forall|i: int|
        0 <= i < query_lower.len() ==> ascii_lower(content[at + i]) == #[trigger] query_lower[i]
}

proof fn lemma_ascii_prefix(content: Seq<char>, n: int)
    requires
        is_ascii_chars(content),
        0 <= n <= content.len(),
    ensures
        encode_utf8(content.take(n)).len() == n,
{
    let t = content.take(n);
    assert forall|k: int| 0 <= k < t.len() implies '\0' <= #[trigger] t[k] <= '\u{7f}' by {
        assert(t[k] == content[k]);
    }
    words::ascii_texts_have_no_inner_bytes(t, 0);
}

/// Lowering an ASCII letter keeps the letter and drops its case, and changes nothing else.
pub proof fn lowering_drops_the_case(c: char)
    ensures
        'A' <= c <= 'Z' ==> ascii_lower(c) as u32 == c as u32 + 32 && 'a' <= ascii_lower(c) <= 'z',
        !('A' <= c <= 'Z') ==> ascii_lower(c) == c,
        ascii_lower(ascii_lower(c)) == ascii_lower(c),
{
    if 'A' <= c <= 'Z' {
        let u = ((c as u32) + 32) as u32;
        assert(97 <= u <= 122);
        assert((u as char) as u32 == u);
    }
}

/// Every document with a hit is ranked.
pub proof fn every_document_is_ranked(hits: Seq<ChunkHit>, from: Seq<usize>, i: int) -> (k: int)
    requires
        ranks_documents(hits, from),
        hits.len() <= usize::MAX,
        0 <= i < hits.len(),
    ensures
        0 <= k < from.len(),
        from[k] < hits.len(),
        hits[from[k] as int].doc_id@ == hits[i].doc_id@,
{
    let ids = dedup::hit_ids(hits);
    let b = grouping::every_group_has_a_best(ids, dedup::hit_ranks(hits), i);
    assert(from.contains(b as usize));
    let k = choose|k: int| 0 <= k < from.len() && from[k] == b as usize;
    assert(ids[b] == hits[b].doc_id@);
    assert(ids[i] == hits[i].doc_id@);
    k
}

/// No document is ranked twice, and the nearer one, by value, comes first.
pub proof fn ranked_documents_differ(hits: Seq<ChunkHit>, from: Seq<usize>, j: int, k: int)
    requires
        ranks_documents(hits, from),
        0 <= j < k < from.len(),
    ensures
        from[j] < hits.len(),
        from[k] < hits.len(),
        hits[from[j] as int].doc_id@ != hits[from[k] as int].doc_id@,
        -0x7f80_0000 <= hits[from[k] as int].distance.rank <= 0x7f80_0000 ==> distance::value(
            hits[from[j] as int].distance,
        ) <= distance::value(hits[from[k] as int].distance),
{
    let a = from[j] as int;
    let b = from[k] as int;
    assert(a != b);
    assert(dedup::is_best_chunk(hits, a) && dedup::is_best_chunk(hits, b));
    if hits[a].doc_id@ == hits[b].doc_id@ {
        assert(dedup::hit_ids(hits)[a] == dedup::hit_ids(hits)[b]);
    }
    distance::places_order_as_values(hits[b].distance, hits[a].distance);
}

/// The chunk that a document is ranked by is no farther than any other of the document's.
pub proof fn documents_are_ranked_by_their_nearest_chunk(
    hits: Seq<ChunkHit>,
    from: Seq<usize>,
    k: int,
    i: int,
)
    requires
        ranks_documents(hits, from),
        0 <= k < from.len(),
        0 <= i < hits.len(),
        hits[i].doc_id@ == hits[from[k] as int].doc_id@,
        -0x7f80_0000 <= hits[i].distance.rank <= 0x7f80_0000,
    ensures
        -0x7f80_0000 <= hits[from[k] as int].distance.rank <= 0x7f80_0000,
        distance::value(hits[from[k] as int].distance) <= distance::value(hits[i].distance),
{
    let x = from[k] as int;
    assert(dedup::is_best_chunk(hits, x));
    assert(dedup::hit_ids(hits)[i] == dedup::hit_ids(hits)[x]);
    assert(dedup::hit_ranks(hits)[x] <= dedup::hit_ranks(hits)[i]);
    distance::places_order_as_values(hits[i].distance, hits[x].distance);
}

/// A suggestion names the documents in rank order, as many as asked for or as there are, each with
/// the text that it is ranked by; and counts all of them.
pub proof fn suggestions_name_documents_in_rank_order(
    hits: Seq<ChunkHit>,
    from: Seq<usize>,
    query: Seq<char>,
    count: int,
    r: SuggestResult,
)
    requires
        is_suggestion(hits, from, query, count, r),
        0 <= count,
    ensures
        r.total_approx == from.len(),
        r.hits@.len() <= count,
        r.hits@.len() <= from.len(),
        r.hits@.len() == count || r.hits@.len() == from.len(),
        forall|k: int|
            0 <= k < r.hits@.len() ==> {
                &&& (#[trigger] r.hits@[k]).id@ == hits[from[k] as int].doc_id@
                &&& r.hits@[k].snippet is Some
                &&& r.hits@[k].snippet->0@ == hits[from[k] as int].content@
            },
{
    assert forall|k: int| 0 <= k < r.hits@.len() implies {
        &&& (#[trigger] r.hits@[k]).id@ == hits[from[k] as int].doc_id@
        &&& r.hits@[k].snippet is Some
        &&& r.hits@[k].snippet->0@ == hits[from[k] as int].content@
    } by {
        assert(suggests(r.hits@[k], hits[from[k] as int], lowercase(query)));
    }
}

/// A substring scan finds exactly the rows whose text, lowered, has the lowered query in it, each
/// with the values of its own row, at distance zero. `p` holds the row of each.
pub proof fn substring_hits_stand_for_their_rows(
    b: Batch,
    query_lower: Seq<char>,
    hits: Seq<ChunkHit>,
) -> (p: Seq<int>)
    requires
        b.doc_id is Some && b.chunk_index is Some && b.chunk_count is Some
            && b.chunk_token_start is Some && b.doc_token_len is Some && b.content is Some,
        schema::models(hits) == substring_hits_of(seq![b], query_lower, 1),
    ensures
        p.len() == hits.len(),
        forall|j: int, k: int|
            #![trigger p[j], p[k]]
            0 <= j < k < p.len() ==> p[j] < p[k],
        forall|i: int|
            0 <= i < b.rows ==> (p.contains(i) <==> text::occurs(
                lowercase((#[trigger] b.content->0@[i])@),
                query_lower,
            )),
        forall|k: int|
            #![trigger p[k]]
            0 <= k < p.len() ==> {
                &&& 0 <= p[k] < b.rows
                &&& hits[k].doc_id@ == b.doc_id->0@[p[k]]@
                &&& hits[k].chunk_index == b.chunk_index->0@[p[k]]
                &&& hits[k].chunk_count == b.chunk_count->0@[p[k]]
                &&& hits[k].chunk_token_start == b.chunk_token_start->0@[p[k]]
                &&& hits[k].doc_token_len == b.doc_token_len->0@[p[k]]
                &&& hits[k].content@ == b.content->0@[p[k]]@
                &&& hits[k].distance.rank == 0
                &&& hits[k].distance_kind == DistanceKind::Normalised
            },
{
    reveal_with_fuel(substring_hits_of, 2);
    let rows = substring_rows(b, query_lower, b.rows as int);
    assert(Seq::<HitModel>::empty() + rows =~= rows);
    let m = schema::models(hits);
    assert(m == rows);
    assert(m.len() == hits.len());
    let p = lemma_substring_rows(b, query_lower, b.rows as int);
    assert forall|k: int|
        #![trigger p[k]]
        0 <= k < p.len() implies {
        &&& 0 <= p[k] < b.rows
        &&& hits[k].doc_id@ == b.doc_id->0@[p[k]]@
        &&& hits[k].chunk_index == b.chunk_index->0@[p[k]]
        &&& hits[k].chunk_count == b.chunk_count->0@[p[k]]
        &&& hits[k].chunk_token_start == b.chunk_token_start->0@[p[k]]
        &&& hits[k].doc_token_len == b.doc_token_len->0@[p[k]]
        &&& hits[k].content@ == b.content->0@[p[k]]@
        &&& hits[k].distance.rank == 0
        &&& hits[k].distance_kind == DistanceKind::Normalised
    } by {
        assert(m[k] == hits[k]@);
    }
    assert forall|i: int| 0 <= i < b.rows implies (p.contains(i) <==> text::occurs(
        lowercase((#[trigger] b.content->0@[i])@),
        query_lower,
    )) by {
        assert(p.contains(i) <==> contains_query(b, query_lower, i));
    }
    p
}

proof fn lemma_substring_rows(b: Batch, query_lower: Seq<char>, n: int) -> (p: Seq<int>)
    requires
        0 <= n,
    ensures
        p.len() == substring_rows(b, query_lower, n).len(),
        forall|j: int, k: int|
            #![trigger p[j], p[k]]
            0 <= j < k < p.len() ==> p[j] < p[k],
        forall|i: int|
            0 <= i < n ==> (#[trigger] p.contains(i) <==> contains_query(b, query_lower, i)),
        forall|k: int|
            0 <= k < p.len() ==> 0 <= #[trigger] p[k] < n && substring_rows(b, query_lower, n)[k]
                == batch::hit_in_row(
                b,
                p[k],
                Distance { rank: 0 },
                DistanceKind::Normalised,
                Seq::empty(),
                Seq::empty(),
            ),
    decreases n,
{
    if n == 0 {
        Seq::empty()
    } else {
        let q = lemma_substring_rows(b, query_lower, n - 1);
        if contains_query(b, query_lower, n - 1) {
            let p = q.push(n - 1);
            assert forall|i: int| 0 <= i < n implies (#[trigger] p.contains(i) <==> contains_query(
                b,
                query_lower,
                i,
            )) by {
                if i < n - 1 {
                    assert(q.contains(i) <==> contains_query(b, query_lower, i));
                    if q.contains(i) {
                        let k = choose|k: int| 0 <= k < q.len() && q[k] == i;
                        assert(p[k] == i);
                    }
                    if p.contains(i) {
                        let k = choose|k: int| 0 <= k < p.len() && p[k] == i;
                        assert(q[k] == i);
                    }
                } else {
                    assert(p[q.len() as int] == i);
                }
            }
            p
        } else {
            assert forall|i: int| 0 <= i < n implies (#[trigger] q.contains(i) <==> contains_query(
                b,
                query_lower,
                i,
            )) by {
                if i == n - 1 && q.contains(i) {
                    let k = choose|k: int| 0 <= k < q.len() && q[k] == i;
                    assert(q[k] < n - 1);
                }
            }
            q
        }
    }
}


/// What completes a query is taken from the five nearest documents alone, or from all where there
/// are fewer.
pub proof fn completions_come_from_the_nearest_documents(
    hits: Seq<ChunkHit>,
    from: Seq<usize>,
    query: Seq<char>,
    count: int,
    r: SuggestResult,
)
    requires
        is_suggestion(hits, from, query, count, r),
    ensures
        r.completions@.len() <= 8,
        forall|c: int|
            0 <= c < r.completions@.len() ==> is_completion_of_one(
                hits,
                from,
                query,
                (#[trigger] r.completions@[c])@,
                5,
            ),
        forall|k: int, t: Seq<char>|
            0 <= k < from.len() && k < 5 && #[trigger] is_completion_in(
                hits[from[k] as int].content@,
                lowercase(hits[from[k] as int].content@),
                widths_of(hits[from[k] as int].content@),
                lowercase(query),
                encode_utf8(query).len() as int,
                t,
            ) ==> r.completions@.len() == 8 || exists|c: int|
                0 <= c < r.completions@.len() && lowercase((#[trigger] r.completions@[c])@)
                    == lowercase(t),
{
    let snippets = top_contents(hits, from);
    let out = grouping::views(r.completions@);
    completions_come_from_the_snippets(query, snippets, out);
    assert forall|c: int| 0 <= c < r.completions@.len() implies is_completion_of_one(
        hits,
        from,
        query,
        (#[trigger] r.completions@[c])@,
        5,
    ) by {
        assert(out[c] == r.completions@[c]@);
        let i = choose|i: int|
            0 <= i < snippets.len() && is_completion_in(
                #[trigger] snippets[i],
                lowercase(snippets[i]),
                widths_of(snippets[i]),
                lowercase(query),
                encode_utf8(query).len() as int,
                out[c],
            );
        assert(snippets[i] == hits[from[i] as int].content@);
    }
    assert forall|k: int, t: Seq<char>|
        0 <= k < from.len() && k < 5 && #[trigger] is_completion_in(
            hits[from[k] as int].content@,
            lowercase(hits[from[k] as int].content@),
            widths_of(hits[from[k] as int].content@),
            lowercase(query),
            encode_utf8(query).len() as int,
            t,
        ) implies r.completions@.len() == 8 || exists|c: int|
        0 <= c < r.completions@.len() && lowercase((#[trigger] r.completions@[c])@) == lowercase(
            t,
        ) by {
        assert(k < snippets.len());
        assert(snippets[k] == hits[from[k] as int].content@);
        if out.len() != 8 {
            let c = choose|c: int| 0 <= c < out.len() && lowercase(#[trigger] out[c]) == lowercase(t);
            assert(r.completions@[c]@ == out[c]);
        }
    }
}

/// The text completes the query in the chunk of one of the first documents.
pub open spec fn is_completion_of_one(
    hits: Seq<ChunkHit>,
    from: Seq<usize>,
    query: Seq<char>,
    t: Seq<char>,
    first: int,
) -> bool {
    exists|k: int|
        0 <= k < from.len() && k < first && is_completion_in(
            hits[#[trigger] from[k] as int].content@,
            lowercase(hits[from[k] as int].content@),
            widths_of(hits[from[k] as int].content@),
            lowercase(query),
            encode_utf8(query).len() as int,
            t,
        )
}

} // verus!
