//! Words of a text: white space, word boundaries, trimming and byte-wise search.

use crate::grouping;
use crate::text;
use vstd::prelude::*;
use vstd::string::*;
use vstd::utf8::*;

verus! {

/// The characters with the Unicode property `White_Space`.
pub open spec fn is_white(c: char) -> bool {
    let u = c as u32;
    ||| 0x9 <= u <= 0xd
    ||| u == 0x20
    ||| u == 0x85
    ||| u == 0xa0
    ||| u == 0x1680
    ||| 0x2000 <= u <= 0x200a
    ||| u == 0x2028
    ||| u == 0x2029
    ||| u == 0x202f
    ||| u == 0x205f
    ||| u == 0x3000
}

/// The characters that end a word: white space and the punctuation marks `.`, `,`, `;` and `:`.
pub open spec fn is_break(c: char) -> bool {
    is_white(c) || c == '.' || c == ',' || c == ';' || c == ':'
}

/// Whether a character is white space.
pub fn white(c: char) -> (r: bool)
    ensures
        r == is_white(c),
{
    let u: u32 = c as u32;
    (0x9 <= u && u <= 0xd) || u == 0x20 || u == 0x85 || u == 0xa0 || u == 0x1680 || (0x2000 <= u
        && u <= 0x200a) || u == 0x2028 || u == 0x2029 || u == 0x202f || u == 0x205f || u == 0x3000
}

/// Whether a character ends a word.
pub fn ends_word(c: char) -> (r: bool)
    ensures
        r == is_break(c),
{
    white(c) || c == '.' || c == ',' || c == ';' || c == ':'
}

/// The length of the word that a text begins with; 0 when it begins with a word end.
pub open spec fn word_len(s: Seq<char>) -> nat
    decreases s.len(),
{
    if s.len() == 0 || is_break(s[0]) {
        0
    } else {
        1 + word_len(s.drop_first())
    }
}

/// The words of a text.
pub open spec fn words(s: Seq<char>) -> Seq<Seq<char>>
    decreases s.len(),
{
    if s.len() == 0 {
        Seq::empty()
    } else if is_break(s[0]) {
        words(s.drop_first())
    } else if word_len(s) <= s.len() {
        seq![s.take(word_len(s) as int)] + words(s.skip(word_len(s) as int))
    } else {
        Seq::empty()
    }
}

/// The first `limit` items of a list.
pub open spec fn first_of<T>(s: Seq<T>, limit: int) -> Seq<T> {
    if s.len() <= limit {
        s
    } else {
        s.take(limit)
    }
}

/// A word reaches at most to the end of the text and holds no word end.
pub proof fn lemma_word_len(s: Seq<char>)
    ensures
        word_len(s) <= s.len(),
        forall|i: int| 0 <= i < word_len(s) ==> !is_break(#[trigger] s[i]),
        word_len(s) < s.len() ==> is_break(s[word_len(s) as int]),
    decreases s.len(),
{
    if s.len() > 0 && !is_break(s[0]) {
        let t = s.drop_first();
        lemma_word_len(t);
        assert forall|i: int| 0 <= i < word_len(s) implies !is_break(#[trigger] s[i]) by {
            if i > 0 {
                assert(s[i] == t[i - 1]);
            }
        }
        if word_len(s) < s.len() {
            assert(s[word_len(s) as int] == t[word_len(t) as int]);
        }
    }
}

/// A text without word ends, and not empty.
pub open spec fn is_word(w: Seq<char>) -> bool {
    w.len() > 0 && forall|i: int| 0 <= i < w.len() ==> !is_break(#[trigger] w[i])
}

/// Words are never empty and hold neither white space nor punctuation.
pub proof fn words_hold_no_breaks(s: Seq<char>)
    ensures
        forall|k: int| 0 <= k < words(s).len() ==> is_word(#[trigger] words(s)[k]),
    decreases s.len(),
{
    if s.len() > 0 {
        if is_break(s[0]) {
            words_hold_no_breaks(s.drop_first());
            assert(words(s) == words(s.drop_first()));
        } else {
            lemma_word_len(s);
            let rest = s.skip(word_len(s) as int);
            words_hold_no_breaks(rest);
            assert forall|k: int| 0 <= k < words(s).len() implies is_word(
                #[trigger] words(s)[k],
            ) by {
                if k > 0 {
                    assert(words(s)[k] == words(rest)[k - 1]);
                } else {
                    assert(words(s)[0] == s.take(word_len(s) as int));
                }
            }
        }
    }
}

/// The length of the word at `from`.
pub fn word_length(chars: &Vec<char>, from: usize) -> (n: usize)
    requires
        from <= chars.len(),
    ensures
        n == word_len(chars@.skip(from as int)),
        from + n <= chars.len(),
{
    let mut i: usize = from;
    assert(chars@.skip(from as int).skip(0) =~= chars@.skip(from as int));
    while i < chars.len() && !ends_word(chars[i])
        invariant
            from <= i <= chars.len(),
            word_len(chars@.skip(from as int)) == (i - from) + word_len(chars@.skip(i as int)),
        decreases chars.len() - i,
    {
        assert(chars@.skip(i as int).drop_first() =~= chars@.skip(i + 1));
        i = i + 1;
    }
    i - from
}

/// The first `limit` words of a text from character `from` on.
pub fn words_from(s: &str, chars: &Vec<char>, from: usize, limit: usize) -> (r: Vec<String>)
    requires
        chars@ == s@,
        from <= chars.len(),
    ensures
        grouping::views(r@) == first_of(words(s@.skip(from as int)), limit as int),
{
    let mut out: Vec<String> = Vec::new();
    let mut i: usize = from;
    let ghost all = words(s@.skip(from as int));
    assert(grouping::views(out@) + words(s@.skip(i as int)) =~= all);
    while i < chars.len() && out.len() < limit
        invariant
            from <= i <= chars.len(),
            chars@ == s@,
            out.len() <= limit,
            grouping::views(out@) + words(s@.skip(i as int)) == all,
        decreases chars.len() - i,
    {
        let ghost rest = s@.skip(i as int);
        if ends_word(chars[i]) {
            assert(rest.drop_first() =~= s@.skip(i + 1));
            i = i + 1;
        } else {
            let n = word_length(chars, i);
            let word = s.substring_char(i, i + n);
            let ghost before = out@;
            out.push(word.to_owned());
            proof {
                assert(rest.take(n as int) =~= s@.subrange(i as int, i + n));
                assert(rest.skip(n as int) =~= s@.skip(i + n));
                assert(grouping::views(out@) =~= grouping::views(before).push(rest.take(n as int)));
                assert(grouping::views(before) + (seq![rest.take(n as int)] + words(
                    s@.skip(i + n),
                )) =~= grouping::views(out@) + words(s@.skip(i + n)));
                assert(word_len(rest) > 0);
            }
            i = i + n;
        }
    }
    proof {
        if i >= chars.len() {
            assert(s@.skip(i as int) =~= Seq::<char>::empty());
            assert(all =~= grouping::views(out@));
        } else {
            assert(all.take(limit as int) =~= grouping::views(out@));
            if all.len() <= limit {
                assert(all =~= grouping::views(out@));
            }
        }
    }
    out
}

/// The length of the leading white space.
pub open spec fn leading_white(s: Seq<char>) -> nat
    decreases s.len(),
{
    if s.len() == 0 || !is_white(s[0]) {
        0
    } else {
        1 + leading_white(s.drop_first())
    }
}

/// The length of the text without trailing white space.
pub open spec fn trimmed_end(s: Seq<char>) -> nat
    decreases s.len(),
{
    if s.len() == 0 {
        0
    } else if is_white(s.last()) {
        trimmed_end(s.drop_last())
    } else {
        s.len()
    }
}

/// A text without leading and trailing white space.
pub open spec fn trimmed(s: Seq<char>) -> Seq<char> {
    let t = s.take(trimmed_end(s) as int);
    t.skip(leading_white(t) as int)
}

/// A copy of a text without leading and trailing white space.
pub fn trim_text(s: &str) -> (r: String)
    ensures
        r@ == trimmed(s@),
{
    let chars = text::chars_of(s);
    let mut end: usize = chars.len();
    assert(s@.take(end as int) =~= s@);
    while end > 0 && white(chars[end - 1])
        invariant
            end <= chars.len(),
            chars@ == s@,
            trimmed_end(s@) == trimmed_end(s@.take(end as int)),
        decreases end,
    {
        assert(s@.take(end as int).drop_last() =~= s@.take(end - 1));
        end = end - 1;
    }
    let ghost t = s@.take(end as int);
    assert(trimmed_end(s@) == end);
    let mut start: usize = 0;
    assert(t.skip(0) =~= t);
    while start < end && white(chars[start])
        invariant
            start <= end <= chars.len(),
            chars@ == s@,
            t == s@.take(end as int),
            leading_white(t) == start + leading_white(t.skip(start as int)),
        decreases end - start,
    {
        assert(t.skip(start as int).drop_first() =~= t.skip(start + 1));
        start = start + 1;
    }
    let r = s.substring_char(start, end).to_owned();
    assert(t.skip(start as int) =~= s@.subrange(start as int, end as int));
    r
}

/// The first occurrence of a byte string at or behind `from`.
pub open spec fn next_occurrence(hay: Seq<u8>, needle: Seq<u8>, from: int) -> Option<int>
    decreases hay.len() + 1 - from,
{
    if from < 0 || from + needle.len() > hay.len() {
        None
    } else if text::occurs_at(hay, needle, from) {
        Some(from)
    } else {
        next_occurrence(hay, needle, from + 1)
    }
}

/// The non-overlapping occurrences of a byte string from `from` on, each search starting behind the
/// previous match.
pub open spec fn occurrences(hay: Seq<u8>, needle: Seq<u8>, from: int) -> Seq<int>
    decreases hay.len() - from,
{
    if needle.len() == 0 {
        Seq::empty()
    } else {
        match next_occurrence(hay, needle, from) {
            None => Seq::empty(),
            Some(at) => if from <= at && at + needle.len() <= hay.len() {
                seq![at] + occurrences(hay, needle, at + needle.len())
            } else {
                Seq::empty()
            },
        }
    }
}

/// An occurrence found lies within the text, and none lies in front of it.
pub proof fn lemma_next_occurrence(hay: Seq<u8>, needle: Seq<u8>, from: int)
    requires
        from >= 0,
    ensures
        next_occurrence(hay, needle, from) matches Some(at) ==> from <= at && text::occurs_at(
            hay,
            needle,
            at,
        ) && forall|k: int| from <= k < at ==> !text::occurs_at(hay, needle, k),
        next_occurrence(hay, needle, from) is None ==> forall|k: int|
            from <= k ==> !text::occurs_at(hay, needle, k),
    decreases hay.len() + 1 - from,
{
    if from + needle.len() <= hay.len() && !text::occurs_at(hay, needle, from) {
        lemma_next_occurrence(hay, needle, from + 1);
    }
}

fn matches_at(hay: &[u8], needle: &[u8], at: usize) -> (r: bool)
    requires
        at + needle@.len() <= hay@.len(),
    ensures
        r == text::occurs_at(hay@, needle@, at as int),
{
    let n = hay.len();
    let mut i: usize = 0;
    while i < needle.len()
        invariant
            i <= needle@.len(),
            n == hay@.len(),
            at + needle@.len() <= n,
            hay@.subrange(at as int, at + i) == needle@.take(i as int),
        decreases needle.len() - i,
    {
        if hay[at + i] != needle[i] {
            proof {
                if text::occurs_at(hay@, needle@, at as int) {
                    assert(hay@.subrange(at as int, at + needle@.len())[i as int] == hay@[at + i]);
                }
            }
            return false;
        }
        assert(hay@.subrange(at as int, at + i + 1) =~= hay@.subrange(at as int, at + i).push(
            hay@[at + i],
        ));
        assert(needle@.take(i + 1) =~= needle@.take(i as int).push(needle@[i as int]));
        i = i + 1;
    }
    assert(needle@.take(i as int) =~= needle@);
    true
}

/// The first occurrence of a byte string at or behind `from`.
pub fn find_from(hay: &[u8], needle: &[u8], from: usize) -> (r: Option<usize>)
    requires
        from <= hay@.len(),
    ensures
        match r {
            Some(at) => next_occurrence(hay@, needle@, from as int) == Some(at as int),
            None => next_occurrence(hay@, needle@, from as int) is None,
        },
{
    if needle.len() > hay.len() {
        return None;
    }
    let last = hay.len() - needle.len();
    let mut at: usize = from;
    while at <= last
        invariant
            from <= at <= hay@.len() + 1,
            last + needle@.len() == hay@.len(),
            next_occurrence(hay@, needle@, from as int) == next_occurrence(
                hay@,
                needle@,
                at as int,
            ),
        decreases hay@.len() + 1 - at,
    {
        if matches_at(hay, needle, at) {
            return Some(at);
        }
        if at == last {
            assert(next_occurrence(hay@, needle@, at + 1) is None);
            return None;
        }
        at = at + 1;
    }
    None
}

/// The encoding of a concatenation is the concatenation of the encodings.
pub proof fn lemma_encode_concat(a: Seq<char>, b: Seq<char>)
    ensures
        encode_utf8(a + b) == encode_utf8(a) + encode_utf8(b),
    decreases a.len(),
{
    if a.len() == 0 {
        assert(a + b =~= b);
        assert(encode_utf8(a) + encode_utf8(b) =~= encode_utf8(b));
    } else {
        assert((a + b).drop_first() =~= a.drop_first() + b);
        lemma_encode_concat(a.drop_first(), b);
        assert(encode_utf8(a + b) =~= encode_utf8(a) + encode_utf8(b));
    }
}

/// Every byte position of an ASCII text is a character boundary.
pub proof fn ascii_texts_have_no_inner_bytes(s: Seq<char>, i: int)
    requires
        is_ascii_chars(s),
        0 <= i <= s.len(),
    ensures
        encode_utf8(s).len() == s.len(),
        is_char_boundary(encode_utf8(s), i),
    decreases s.len(),
{
    let bytes = encode_utf8(s);
    is_ascii_chars_encode_utf8(s);
    encode_utf8_valid_utf8(s);
    if i > 0 {
        encode_utf8_first_scalar(s);
        let t = s.drop_first();
        assert forall|k: int| 0 <= k < t.len() implies '\0' <= #[trigger] t[k] <= '\u{7f}' by {
            assert(t[k] == s[k + 1]);
        }
        is_ascii_chars_encode_utf8(t);
        assert(encode_utf8(s) == encode_scalar(s[0] as u32) + encode_utf8(t));
        assert(encode_scalar(s[0] as u32).len() == 1);
        assert(pop_first_scalar(bytes) =~= encode_utf8(t));
        ascii_texts_have_no_inner_bytes(t, i - 1);
    }
}

/// White space and the marks `.`, `,`, `;` and `:` end a word; letters, digits and the marks within
/// words do not.
pub proof fn spaces_and_marks_end_words(c: char)
    ensures
        c == ' ' || c == '\t' || c == '\n' || c == '\r' || c == '\u{a0}' || c == '\u{3000}'
            ==> is_white(c) && is_break(c),
        c == '.' || c == ',' || c == ';' || c == ':' ==> is_break(c) && !is_white(c),
        'a' <= c <= 'z' || 'A' <= c <= 'Z' || '0' <= c <= '9' ==> !is_break(c) && !is_white(c),
        c == '-' || c == '_' || c == '\'' || c == '/' || c == '(' || c == ')' || c == '"' || c
            == '!' || c == '?' ==> !is_break(c),
        is_break(c) && !is_white(c) ==> c == '.' || c == ',' || c == ';' || c == ':',
        is_white(c) && (c as u32) < 0x80 ==> c == ' ' || 0x9 <= c as u32 <= 0xd,
{
}

/// The words of a text are its longest runs without a word end, in order: what ends a word in front
/// of a text adds none, and a word in front of a word end is the first.
#[verifier::spinoff_prover]
pub proof fn words_are_runs_between_breaks(w: Seq<char>, c: char, rest: Seq<char>)
    requires
        is_break(c),
    ensures
        words(Seq::<char>::empty()) == Seq::<Seq<char>>::empty(),
        words(seq![c] + rest) == words(rest),
        is_word(w) ==> words(w) == seq![w],
        is_word(w) ==> words(w + seq![c] + rest) == seq![w] + words(rest),
{
    let a = seq![c] + rest;
    assert(a.drop_first() =~= rest);
    if is_word(w) {
        lemma_word_at_front(w, Seq::empty());
        assert(w + Seq::<char>::empty() =~= w);
        assert(w.take(w.len() as int) =~= w);
        assert(w.skip(w.len() as int) =~= Seq::<char>::empty());
        assert(seq![w] + Seq::<Seq<char>>::empty() =~= seq![w]);
        let s = w + seq![c] + rest;
        assert(s =~= w + a);
        lemma_word_at_front(w, a);
        assert(s.take(w.len() as int) =~= w);
        assert(s.skip(w.len() as int) =~= a);
        assert(word_len(s) == w.len());
        assert(s[0] == w[0] && !is_break(w[0]));
        assert(a[0] == c && words(a) == words(rest));
        assert(words(s) == seq![w] + words(a));
    }
}

proof fn lemma_word_at_front(w: Seq<char>, tail: Seq<char>)
    requires
        forall|i: int| 0 <= i < w.len() ==> !is_break(#[trigger] w[i]),
        tail.len() == 0 || is_break(tail[0]),
    ensures
        word_len(w + tail) == w.len(),
    decreases w.len(),
{
    let s = w + tail;
    if w.len() == 0 {
        assert(s =~= tail);
    } else {
        let v = w.drop_first();
        assert(s[0] == w[0]);
        assert(s.drop_first() =~= v + tail);
        assert forall|i: int| 0 <= i < v.len() implies !is_break(#[trigger] v[i]) by {
            assert(v[i] == w[i + 1]);
        }
        lemma_word_at_front(v, tail);
    }
}

proof fn lemma_leading_white(s: Seq<char>)
    ensures
        leading_white(s) <= s.len(),
        forall|i: int| 0 <= i < leading_white(s) ==> is_white(#[trigger] s[i]),
        leading_white(s) < s.len() ==> !is_white(s[leading_white(s) as int]),
    decreases s.len(),
{
    if s.len() > 0 && is_white(s[0]) {
        let t = s.drop_first();
        lemma_leading_white(t);
        assert forall|i: int| 0 <= i < leading_white(s) implies is_white(#[trigger] s[i]) by {
            if i > 0 {
                assert(s[i] == t[i - 1]);
            }
        }
        if leading_white(s) < s.len() {
            assert(s[leading_white(s) as int] == t[leading_white(t) as int]);
        }
    }
}

proof fn lemma_trimmed_end(s: Seq<char>)
    ensures
        trimmed_end(s) <= s.len(),
        forall|i: int| trimmed_end(s) <= i < s.len() ==> is_white(#[trigger] s[i]),
        trimmed_end(s) > 0 ==> !is_white(s[trimmed_end(s) - 1]),
    decreases s.len(),
{
    if s.len() > 0 && is_white(s.last()) {
        let t = s.drop_last();
        lemma_trimmed_end(t);
        assert forall|i: int| trimmed_end(s) <= i < s.len() implies is_white(#[trigger] s[i]) by {
            if i < t.len() {
                assert(s[i] == t[i]);
            }
        }
    }
}

/// Trimming takes white space off both ends, all of it and nothing else.
pub proof fn trimming_takes_white_space_only(s: Seq<char>) -> (cut: (Seq<char>, Seq<char>))
    ensures
        s == cut.0 + trimmed(s) + cut.1,
        forall|i: int| 0 <= i < cut.0.len() ==> is_white(#[trigger] cut.0[i]),
        forall|i: int| 0 <= i < cut.1.len() ==> is_white(#[trigger] cut.1[i]),
        trimmed(s).len() > 0 ==> !is_white(trimmed(s)[0]) && !is_white(trimmed(s).last()),
{
    lemma_trimmed_end(s);
    let t = s.take(trimmed_end(s) as int);
    lemma_leading_white(t);
    let head = t.take(leading_white(t) as int);
    let tail = s.skip(trimmed_end(s) as int);
    assert(s =~= head + trimmed(s) + tail);
    assert forall|i: int| 0 <= i < tail.len() implies is_white(#[trigger] tail[i]) by {
        assert(tail[i] == s[trimmed_end(s) + i]);
    }
    (head, tail)
}

/// A text that neither begins nor ends with white space is left alone by trimming.
pub proof fn trimmed_texts_stay(s: Seq<char>)
    requires
        s.len() > 0 ==> !is_white(s[0]) && !is_white(s.last()),
    ensures
        trimmed(s) == s,
{
    lemma_trimmed_end(s);
    if s.len() > 0 {
        assert(trimmed_end(s) == s.len());
    }
    let t = s.take(trimmed_end(s) as int);
    assert(t =~= s);
    lemma_leading_white(t);
    assert(leading_white(t) == 0);
    assert(t.skip(0) =~= t);
}

/// The position lies in the listed occurrence that begins last at or in front of it.
pub open spec fn is_touched(all: Seq<int>, len: int, x: int) -> bool {
    exists|k: int| 0 <= k < all.len() && #[trigger] all[k] <= x < all[k] + len
}

/// The occurrences listed are occurrences, each behind the end of the one before.
pub proof fn listed_occurrences_do_not_overlap(
    hay: Seq<u8>,
    needle: Seq<u8>,
    from: int,
    all: Seq<int>,
)
    requires
        0 <= from,
        needle.len() > 0,
        all == occurrences(hay, needle, from),
    ensures
        forall|k: int|
            0 <= k < all.len() ==> from <= #[trigger] all[k] && text::occurs_at(
                hay,
                needle,
                all[k],
            ),
        forall|j: int, k: int|
            #![trigger all[j], all[k]]
            0 <= j < k < all.len() ==> all[j] + needle.len() <= all[k],
    decreases hay.len() + 1 - from,
{
    lemma_next_occurrence(hay, needle, from);
    let n = needle.len() as int;
    match next_occurrence(hay, needle, from) {
        None => {},
        Some(at) => {
            let rest = occurrences(hay, needle, at + n);
            listed_occurrences_do_not_overlap(hay, needle, at + n, rest);
            assert(all == seq![at] + rest);
            assert forall|k: int| 0 <= k < all.len() implies from <= #[trigger] all[k]
                && text::occurs_at(hay, needle, all[k]) by {
                if k > 0 {
                    assert(all[k] == rest[k - 1]);
                }
            }
            assert forall|j: int, k: int|
                #![trigger all[j], all[k]]
                0 <= j < k < all.len() implies all[j] + n <= all[k] by {
                assert(all[k] == rest[k - 1]);
                if j > 0 {
                    assert(all[j] == rest[j - 1]);
                }
            }
        },
    }
}

/// No occurrence is missed: every one begins within one that is listed.
pub proof fn no_occurrence_is_missed(
    hay: Seq<u8>,
    needle: Seq<u8>,
    from: int,
    all: Seq<int>,
    x: int,
)
    requires
        0 <= from <= x,
        needle.len() > 0,
        all == occurrences(hay, needle, from),
        text::occurs_at(hay, needle, x),
    ensures
        is_touched(all, needle.len() as int, x),
    decreases hay.len() + 1 - from,
{
    lemma_next_occurrence(hay, needle, from);
    let n = needle.len() as int;
    let at = next_occurrence(hay, needle, from)->0;
    let rest = occurrences(hay, needle, at + n);
    assert(all == seq![at] + rest);
    if x < at + n {
        assert(all[0] <= x);
    } else {
        no_occurrence_is_missed(hay, needle, at + n, rest, x);
        let k = choose|k: int| 0 <= k < rest.len() && #[trigger] rest[k] <= x < rest[k] + n;
        assert(all[k + 1] == rest[k]);
    }
}

} // verus!
