//! Names of dataset directories: domains in an encoding that every file system takes.

use crate::filter;
use crate::grouping;
use crate::pieces;
use crate::text;
use crate::words;
use vstd::prelude::*;
use vstd::string::*;
use vstd::utf8::*;

verus! {

/// What follows the encoded domain in a dataset directory's name.
pub const DATASET_SUFFIX: &'static str = ".lance";

/// A character that form encoding keeps.
pub open spec fn is_kept(c: char) -> bool {
    c == '*' || c == '-' || c == '.' || c == '_' || '0' <= c <= '9' || 'A' <= c <= 'Z' || 'a' <= c
        <= 'z'
}

/// A hexadecimal digit, in upper case.
pub open spec fn hex_digit(d: int) -> char {
    if d < 10 {
        text::digit_char(d)
    } else if d == 10 {
        'A'
    } else if d == 11 {
        'B'
    } else if d == 12 {
        'C'
    } else if d == 13 {
        'D'
    } else if d == 14 {
        'E'
    } else {
        'F'
    }
}

/// Bytes, each as a percent sign and two hexadecimal digits.
pub open spec fn percent_encoded(bytes: Seq<u8>) -> Seq<char>
    decreases bytes.len(),
{
    if bytes.len() == 0 {
        Seq::empty()
    } else {
        let b = bytes.last() as int;
        percent_encoded(bytes.drop_last()) + seq!['%', hex_digit(b / 16), hex_digit(b % 16)]
    }
}

/// A character in form encoding: kept, a plus sign for a space, or its UTF-8 bytes in percent
/// encoding.
pub open spec fn encoded_char(c: char) -> Seq<char> {
    if is_kept(c) {
        seq![c]
    } else if c == ' ' {
        seq!['+']
    } else {
        percent_encoded(encode_scalar(c as u32))
    }
}

/// A text in form encoding.
pub open spec fn form_encoded(s: Seq<char>) -> Seq<char>
    decreases s.len(),
{
    if s.len() == 0 {
        Seq::empty()
    } else {
        form_encoded(s.drop_last()) + encoded_char(s.last())
    }
}

/// The name and value pairs of a form-encoded text.
pub uninterp spec fn form_pairs(s: Seq<char>) -> Seq<(Seq<char>, Seq<char>)>;

/// A list of string pairs and their views.
pub open spec fn pair_views(pairs: Seq<(String, String)>) -> Seq<(Seq<char>, Seq<char>)> {
    Seq::new(pairs.len(), |i: int| (pairs[i].0@, pairs[i].1@))
}

/// Form-encodes a text (`form_urlencoded::byte_serialize`): letters, digits and `*-._` stay, a space
/// becomes `+`, and every other byte of the UTF-8 form becomes `%` with two upper-case hexadecimal
/// digits.
#[verifier::external_body]
fn byte_serialize(segment: &str) -> (r: String)
    ensures
        r@ == form_encoded(segment@),
{
    form_urlencoded::byte_serialize(segment.as_bytes()).collect::<String>()
}

/// Reads a form-encoded text as pairs of name and value (`form_urlencoded::parse`). The result is a
/// function of the text alone. A text that form encoding made from a non-empty one is a single pair:
/// that text as the name, with an empty value.
#[verifier::external_body]
fn parse(segment: &str) -> (r: Vec<(String, String)>)
    ensures
        pair_views(r@) == form_pairs(segment@),
        forall|t: Seq<char>|
            t.len() > 0 && #[trigger] form_encoded(t) == segment@ ==> pair_views(r@) == seq![
                (t, Seq::<char>::empty()),
            ],
{
    form_urlencoded::parse(segment.as_bytes()).into_owned().collect::<Vec<_>>()
}

/// An underscore in percent encoding.
pub open spec fn escape() -> Seq<char> {
    seq!['%', '5', 'F']
}

/// A text with every underscore escaped that another one follows or that stands at the end, so that
/// two in a row only ever separate segments.
pub open spec fn sealed(s: Seq<char>) -> Seq<char>
    decreases s.len(),
{
    if s.len() == 0 {
        Seq::empty()
    } else if s[0] == '_' && (s.len() == 1 || s[1] == '_') {
        escape() + sealed(s.drop_first())
    } else {
        seq![s[0]] + sealed(s.drop_first())
    }
}

/// A text with every escaped underscore put back.
pub open spec fn unsealed(s: Seq<char>) -> Seq<char>
    decreases s.len(),
{
    if s.len() == 0 {
        Seq::empty()
    } else if text::occurs_at(s, escape(), 0) {
        seq!['_'] + unsealed(s.skip(3))
    } else {
        seq![s[0]] + unsealed(s.drop_first())
    }
}

/// A segment of a domain as it stands in a file name: form-encoded, and sealed.
pub open spec fn encoded_segment(segment: Seq<char>) -> Seq<char> {
    sealed(form_encoded(segment))
}

/// The encoded segments of a domain.
pub open spec fn encoded_segments(domain: Seq<char>) -> Seq<Seq<char>> {
    let segments = pieces::pieces(domain, seq!['/']);
    Seq::new(segments.len(), |i: int| encoded_segment(segments[i]))
}

/// A domain as a file name: its segments encoded, with two underscores between them.
pub open spec fn path_text(domain: Seq<char>) -> Seq<char> {
    pieces::joined(encoded_segments(domain), seq!['_', '_'])
}

/// Escapes the underscores that could be taken for a separator.
fn seal_text(s: &str) -> (r: String)
    ensures
        r@ == sealed(s@),
{
    let chars = text::chars_of(s);
    let mut out = String::new();
    let mut i: usize = 0;
    assert(s@.skip(0) =~= s@);
    assert(out@ + sealed(s@.skip(0)) =~= sealed(s@));
    while i < chars.len()
        invariant
            i <= chars.len(),
            chars@ == s@,
            out@ + sealed(s@.skip(i as int)) == sealed(s@),
        decreases chars.len() - i,
    {
        let ghost before = out@;
        let ghost rest = s@.skip(i as int);
        assert(rest.drop_first() =~= s@.skip(i + 1));
        if chars[i] == '_' && (i + 1 == chars.len() || chars[i + 1] == '_') {
            out.push('%');
            out.push('5');
            out.push('F');
            assert(out@ + sealed(s@.skip(i + 1)) =~= before + (escape() + sealed(s@.skip(i + 1))));
        } else {
            out.push(chars[i]);
            assert(out@ + sealed(s@.skip(i + 1)) =~= before + (seq![rest[0]] + sealed(
                s@.skip(i + 1),
            )));
        }
        i = i + 1;
    }
    assert(s@.skip(i as int) =~= Seq::<char>::empty());
    assert(out@ =~= sealed(s@));
    out
}

/// Puts escaped underscores back.
fn unseal_text(s: &str) -> (r: String)
    ensures
        r@ == unsealed(s@),
{
    let chars = text::chars_of(s);
    let n = chars.len();
    let mut out = String::new();
    let mut i: usize = 0;
    assert(s@.skip(0) =~= s@);
    assert(out@ + unsealed(s@.skip(0)) =~= unsealed(s@));
    while i < n
        invariant
            i <= n,
            n == chars.len(),
            chars@ == s@,
            out@ + unsealed(s@.skip(i as int)) == unsealed(s@),
        decreases n - i,
    {
        let ghost before = out@;
        let ghost rest = s@.skip(i as int);
        if n - i >= 3 && chars[i] == '%' && chars[i + 1] == '5' && chars[i + 2] == 'F' {
            out.push('_');
            proof {
                assert(rest.subrange(0, 3) =~= escape());
                assert(rest.skip(3) =~= s@.skip(i + 3));
                assert(out@ + unsealed(s@.skip(i + 3)) =~= before + (seq!['_'] + unsealed(
                    s@.skip(i + 3),
                )));
            }
            i = i + 3;
        } else {
            out.push(chars[i]);
            proof {
                if text::occurs_at(rest, escape(), 0) {
                    let head = rest.subrange(0, 3);
                    assert(head[0] == rest[0] && head[1] == rest[1] && head[2] == rest[2]);
                }
                assert(rest.drop_first() =~= s@.skip(i + 1));
                assert(out@ + unsealed(s@.skip(i + 1)) =~= before + (seq![rest[0]] + unsealed(
                    s@.skip(i + 1),
                )));
            }
            i = i + 1;
        }
    }
    assert(s@.skip(i as int) =~= Seq::<char>::empty());
    assert(out@ =~= unsealed(s@));
    out
}

/// Encodes a domain such as `org/team` as a file name.
pub fn encode_domain_path(domain: &str) -> (r: String)
    ensures
        r@ == path_text(domain@),
{
    proof {
        reveal_strlit("/");
        reveal_strlit("__");
        assert("/"@ =~= seq!['/']);
        assert("__"@ =~= seq!['_', '_']);
    }
    let segments = pieces::split_text(domain, "/");
    let mut encoded: Vec<String> = Vec::new();
    let mut i: usize = 0;
    while i < segments.len()
        invariant
            i <= segments.len(),
            encoded.len() == i,
            forall|k: int|
                0 <= k < i ==> (#[trigger] encoded@[k])@ == encoded_segment(segments@[k]@),
        decreases segments.len() - i,
    {
        let form = byte_serialize(segments[i].as_str());
        encoded.push(seal_text(form.as_str()));
        i = i + 1;
    }
    proof {
        let all = pieces::pieces(domain@, seq!['/']);
        assert(all.len() == segments.len());
        assert forall|k: int| 0 <= k < all.len() implies grouping::views(encoded@)[k]
            == encoded_segments(domain@)[k] by {
            assert(grouping::views(segments@)[k] == all[k]);
        }
        assert(grouping::views(encoded@) =~= encoded_segments(domain@));
    }
    pieces::join_texts(&encoded, "__")
}

/// The text of one pair: the name, with the value after an equals sign if it has one.
pub open spec fn pair_text(pair: (Seq<char>, Seq<char>)) -> Seq<char> {
    if pair.1.len() == 0 {
        pair.0
    } else {
        pair.0 + seq!['='] + pair.1
    }
}

/// The texts of the first `n` pairs, one after another.
pub open spec fn pairs_text(pairs: Seq<(Seq<char>, Seq<char>)>, n: int) -> Seq<char>
    decreases n,
{
    if n <= 0 {
        Seq::empty()
    } else {
        pairs_text(pairs, n - 1) + pair_text(pairs[n - 1])
    }
}

/// The text that a segment's pairs stand for; none without pairs.
pub open spec fn segment_of(pairs: Seq<(Seq<char>, Seq<char>)>) -> Option<Seq<char>> {
    if pairs.len() == 0 {
        None
    } else {
        Some(pairs_text(pairs, pairs.len() as int))
    }
}

/// Puts a segment together from its pairs.
pub fn segment_from_pairs(pairs: &Vec<(String, String)>) -> (r: Option<String>)
    ensures
        match r {
            Some(s) => segment_of(pair_views(pairs@)) == Some(s@),
            None => segment_of(pair_views(pairs@)) is None,
        },
{
    if pairs.len() == 0 {
        return None;
    }
    let ghost views = pair_views(pairs@);
    let mut out = String::new();
    let mut i: usize = 0;
    while i < pairs.len()
        invariant
            i <= pairs.len(),
            views == pair_views(pairs@),
            out@ == pairs_text(views, i as int),
        decreases pairs.len() - i,
    {
        let ghost before = out@;
        let name = &pairs[i].0;
        let value = &pairs[i].1;
        out.append(name.as_str());
        if !value.as_str().is_empty() {
            out.push('=');
            out.append(value.as_str());
        }
        proof {
            assert(views[i as int] == (name@, value@));
            assert(out@ =~= before + pair_text(views[i as int]));
        }
        i = i + 1;
    }
    Some(out)
}

/// The text that an encoded segment stands for.
pub open spec fn decoded_segment(segment: Seq<char>) -> Option<Seq<char>> {
    if segment.len() == 0 {
        Some(Seq::empty())
    } else {
        segment_of(form_pairs(unsealed(segment)))
    }
}

/// All segments decode.
pub open spec fn all_decode(segments: Seq<Seq<char>>) -> bool {
    forall|i: int| 0 <= i < segments.len() ==> decoded_segment(#[trigger] segments[i]) is Some
}

/// The decoded segments, with slashes between them.
pub open spec fn decoded_path(segments: Seq<Seq<char>>) -> Seq<char> {
    pieces::joined(
        Seq::new(segments.len(), |i: int| decoded_segment(segments[i])->0),
        seq!['/'],
    )
}

fn decode_segment(segment: &str) -> (r: Option<String>)
    ensures
        match r {
            Some(s) => decoded_segment(segment@) == Some(s@),
            None => decoded_segment(segment@) is None,
        },
        forall|t: Seq<char>| #[trigger] encoded_segment(t) == segment@ ==> r is Some && r->0@ == t,
{
    if segment.is_empty() {
        proof {
            assert forall|t: Seq<char>| #[trigger] encoded_segment(t) == segment@ implies t
                =~= Seq::<char>::empty() by {
                lemma_encoded_segment(t);
            }
        }
        return Some(String::new());
    }
    let form = unseal_text(segment);
    let pairs = parse(form.as_str());
    let r = segment_from_pairs(&pairs);
    proof {
        assert forall|t: Seq<char>| #[trigger] encoded_segment(t) == segment@ implies r is Some
            && r->0@ == t by {
            lemma_encoded_segment(t);
            assert(form_encoded(t) == form@);
            let views = pair_views(pairs@);
            assert(views == seq![(t, Seq::<char>::empty())]);
            assert(pairs_text(views, 0) =~= Seq::<char>::empty());
            assert(pairs_text(views, 1) =~= t);
        }
    }
    r
}

/// Decodes a file name back to a domain; none if a segment does not decode. The file name of a
/// domain gives the domain back.
pub fn decode_domain_path(encoded: &str) -> (r: Option<String>)
    ensures
        match r {
            Some(d) => all_decode(pieces::pieces(encoded@, seq!['_', '_'])) && d@ == decoded_path(
                pieces::pieces(encoded@, seq!['_', '_']),
            ),
            None => !all_decode(pieces::pieces(encoded@, seq!['_', '_'])),
        },
        forall|domain: Seq<char>|
            #[trigger] path_text(domain) == encoded@ ==> r is Some && r->0@ == domain,
{
    proof {
        reveal_strlit("/");
        reveal_strlit("__");
        assert("/"@ =~= seq!['/']);
        assert("__"@ =~= seq!['_', '_']);
    }
    let segments = pieces::split_text(encoded, "__");
    let ghost parts = pieces::pieces(encoded@, seq!['_', '_']);
    let mut decoded: Vec<String> = Vec::new();
    let mut i: usize = 0;
    while i < segments.len()
        invariant
            i <= segments.len(),
            decoded.len() == i,
            parts == grouping::views(segments@),
            parts == pieces::pieces(encoded@, seq!['_', '_']),
            forall|k: int|
                0 <= k < i ==> decoded_segment(#[trigger] parts[k]) == Some(decoded@[k]@),
            forall|k: int, t: Seq<char>|
                #![trigger parts[k], encoded_segment(t)]
                0 <= k < i && encoded_segment(t) == parts[k] ==> decoded@[k]@ == t,
        decreases segments.len() - i,
    {
        assert(parts[i as int] == segments@[i as int]@);
        match decode_segment(segments[i].as_str()) {
            Some(s) => {
                decoded.push(s);
            },
            None => {
                proof {
                    assert(decoded_segment(parts[i as int]) is None);
                    assert forall|domain: Seq<char>| #[trigger] path_text(domain)
                        == encoded@ implies false by {
                        lemma_encoded_segments_split(domain);
                        let own = pieces::pieces(domain, seq!['/']);
                        assert(parts[i as int] == encoded_segment(own[i as int]));
                    }
                }
                return None;
            },
        }
        i = i + 1;
    }
    proof {
        assert(grouping::views(decoded@) =~= Seq::new(
            parts.len(),
            |k: int| decoded_segment(parts[k])->0,
        )) by {
            assert forall|k: int| 0 <= k < parts.len() implies grouping::views(decoded@)[k]
                == decoded_segment(parts[k])->0 by {
                assert(decoded_segment(parts[k]) == Some(decoded@[k]@));
            }
        }
        assert forall|domain: Seq<char>| #[trigger] path_text(domain)
            == encoded@ implies pieces::joined(grouping::views(decoded@), seq!['/'])
            == domain by {
            lemma_encoded_segments_split(domain);
            let own = pieces::pieces(domain, seq!['/']);
            assert forall|k: int| 0 <= k < own.len() implies grouping::views(decoded@)[k]
                == own[k] by {
                assert(parts[k] == encoded_segment(own[k]));
            }
            assert(grouping::views(decoded@) =~= own);
            pieces::joining_undoes_splitting(domain, seq!['/']);
        }
    }
    Some(pieces::join_texts(&decoded, "/"))
}

/// A byte in form encoding.
spec fn encoded_byte(b: u8) -> Seq<char> {
    if b < 0x80 && is_kept(b as char) {
        seq![b as char]
    } else if b == 0x20 {
        seq!['+']
    } else {
        seq!['%', hex_digit(b as int / 16), hex_digit(b as int % 16)]
    }
}

/// Bytes in form encoding.
spec fn encoded_bytes(bytes: Seq<u8>) -> Seq<char>
    decreases bytes.len(),
{
    if bytes.len() == 0 {
        Seq::empty()
    } else {
        encoded_byte(bytes[0]) + encoded_bytes(bytes.drop_first())
    }
}

proof fn lemma_encoded_bytes_concat(a: Seq<u8>, b: Seq<u8>)
    ensures
        encoded_bytes(a + b) == encoded_bytes(a) + encoded_bytes(b),
    decreases a.len(),
{
    if a.len() == 0 {
        assert(a + b =~= b);
        assert(encoded_bytes(a) + encoded_bytes(b) =~= encoded_bytes(b));
    } else {
        assert((a + b).drop_first() =~= a.drop_first() + b);
        lemma_encoded_bytes_concat(a.drop_first(), b);
        assert(encoded_bytes(a + b) =~= encoded_bytes(a) + encoded_bytes(b));
    }
}

proof fn lemma_high_bytes(bytes: Seq<u8>)
    requires
        forall|i: int| 0 <= i < bytes.len() ==> (#[trigger] bytes[i]) >= 0x80,
    ensures
        percent_encoded(bytes) == encoded_bytes(bytes),
    decreases bytes.len(),
{
    if bytes.len() > 0 {
        let rest = bytes.drop_last();
        let one = seq![bytes.last()];
        lemma_high_bytes(rest);
        lemma_encoded_bytes_concat(rest, one);
        assert(bytes =~= rest + one);
        assert(one.drop_first() =~= Seq::<u8>::empty());
        reveal_with_fuel(encoded_bytes, 2);
        assert(encoded_bytes(one) =~= encoded_byte(bytes.last()));
    }
}

/// The encoding of a character is that of its bytes.
proof fn lemma_char_is_bytes(c: char)
    ensures
        encoded_char(c) == encoded_bytes(encode_scalar(c as u32)),
{
    let u = c as u32;
    let bytes = encode_scalar(u);
    char_is_scalar(c);
    if u < 0x80 {
        assert((u & 0x7f) as u8 == u as u8) by (bit_vector)
            requires
                u < 0x80,
        ;
        let b = u as u8;
        assert(bytes =~= seq![b]);
        assert(b as char == c);
        assert(bytes.drop_first() =~= Seq::<u8>::empty());
        assert(bytes.drop_last() =~= Seq::<u8>::empty());
        reveal_with_fuel(encoded_bytes, 2);
        assert(encoded_bytes(bytes) =~= encoded_byte(b));
        assert(percent_encoded(bytes.drop_last()) =~= Seq::<char>::empty());
        assert(percent_encoded(bytes) =~= seq![
            '%',
            hex_digit(b as int / 16),
            hex_digit(b as int % 16),
        ]);
    } else {
        assert(0xc0u8 | ((u >> 6) & 0x1f) as u8 >= 0x80u8) by (bit_vector);
        assert(0xe0u8 | ((u >> 12) & 0x0f) as u8 >= 0x80u8) by (bit_vector);
        assert(0xf0u8 | ((u >> 18) & 0x7) as u8 >= 0x80u8) by (bit_vector);
        assert(0x80u8 | (u & 0x3f) as u8 >= 0x80u8) by (bit_vector);
        assert(0x80u8 | ((u >> 6) & 0x3f) as u8 >= 0x80u8) by (bit_vector);
        assert(0x80u8 | ((u >> 12) & 0x3f) as u8 >= 0x80u8) by (bit_vector);
        assert forall|i: int| 0 <= i < bytes.len() implies (#[trigger] bytes[i]) >= 0x80 by {}
        lemma_high_bytes(bytes);
    }
}

/// The form encoding of a text is that of its bytes.
proof fn lemma_form_is_bytes(s: Seq<char>)
    ensures
        form_encoded(s) == encoded_bytes(encode_utf8(s)),
    decreases s.len(),
{
    if s.len() > 0 {
        let rest = s.drop_last();
        let one = seq![s.last()];
        lemma_form_is_bytes(rest);
        lemma_char_is_bytes(s.last());
        assert(s =~= rest + one);
        words::lemma_encode_concat(rest, one);
        assert(one.drop_first() =~= Seq::<char>::empty());
        reveal_with_fuel(encode_utf8, 2);
        assert(encode_utf8(one) =~= encode_scalar(s.last() as u32));
        lemma_encoded_bytes_concat(encode_utf8(rest), encode_utf8(one));
    }
}

/// The value of a hexadecimal digit.
spec fn hex_value(c: char) -> int {
    if '0' <= c <= '9' {
        c as int - '0' as int
    } else {
        c as int - 'A' as int + 10
    }
}

/// The bytes of a form-encoded text.
spec fn decoded_bytes(s: Seq<char>) -> Seq<u8>
    decreases s.len(),
{
    if s.len() == 0 {
        Seq::empty()
    } else if s[0] == '%' && s.len() >= 3 {
        seq![(16 * hex_value(s[1]) + hex_value(s[2])) as u8] + decoded_bytes(s.skip(3))
    } else if s[0] == '+' {
        seq![0x20u8] + decoded_bytes(s.drop_first())
    } else {
        seq![s[0] as u8] + decoded_bytes(s.drop_first())
    }
}

proof fn lemma_bytes_read_back(bytes: Seq<u8>)
    ensures
        decoded_bytes(encoded_bytes(bytes)) == bytes,
    decreases bytes.len(),
{
    if bytes.len() > 0 {
        let b = bytes[0];
        let e = encoded_byte(b);
        let rest = encoded_bytes(bytes.drop_first());
        let all = encoded_bytes(bytes);
        lemma_bytes_read_back(bytes.drop_first());
        assert(all == e + rest);
        assert(all[0] == e[0]);
        if e.len() == 1 {
            assert(all.drop_first() =~= rest);
        } else {
            assert(all[1] == e[1] && all[2] == e[2]);
            assert(all.skip(3) =~= rest);
            assert(hex_value(hex_digit(b as int / 16)) == b as int / 16);
            assert(hex_value(hex_digit(b as int % 16)) == b as int % 16);
        }
        assert(seq![b] + bytes.drop_first() =~= bytes);
    }
}

/// Form encoding tells texts apart.
proof fn lemma_form_tells_apart(s: Seq<char>, t: Seq<char>)
    requires
        form_encoded(s) == form_encoded(t),
    ensures
        s == t,
{
    lemma_form_is_bytes(s);
    lemma_form_is_bytes(t);
    lemma_bytes_read_back(encode_utf8(s));
    lemma_bytes_read_back(encode_utf8(t));
    encode_utf8_decode_utf8(s);
    encode_utf8_decode_utf8(t);
}

/// Form encoding never escapes an underscore, and holds no slash.
proof fn lemma_plain_bytes(bytes: Seq<u8>, at: int)
    ensures
        !text::occurs_at(encoded_bytes(bytes), escape(), at),
        0 <= at < encoded_bytes(bytes).len() ==> encoded_bytes(bytes)[at] != '/',
    decreases bytes.len(),
{
    let all = encoded_bytes(bytes);
    if bytes.len() > 0 {
        let b = bytes[0];
        let e = encoded_byte(b);
        let rest = encoded_bytes(bytes.drop_first());
        let n = e.len() as int;
        assert(all == e + rest);
        lemma_plain_bytes(bytes.drop_first(), at - n);
        if text::occurs_at(all, escape(), at) {
            let here = all.subrange(at, at + 3);
            assert(here[0] == all[at] && here[1] == all[at + 1] && here[2] == all[at + 2]);
            if at >= n {
                assert(rest.subrange(at - n, at - n + 3) =~= here);
            } else {
                assert(all[at] == e[at]);
                assert(at == 0 && n == 3);
                assert(e[1] == '5' && e[2] == 'F');
                assert(b as int / 16 == 5 && b as int % 16 == 15);
                assert(b == 0x5f);
                assert(b as char == '_');
            }
        }
    }
}

/// Sealing can be undone where no escape stands already.
proof fn lemma_unseal(s: Seq<char>)
    requires
        forall|at: int| !#[trigger] text::occurs_at(s, escape(), at),
    ensures
        unsealed(sealed(s)) == s,
    decreases s.len(),
{
    if s.len() > 0 {
        let rest = s.drop_first();
        assert forall|at: int| !#[trigger] text::occurs_at(rest, escape(), at) by {
            if text::occurs_at(rest, escape(), at) {
                assert(s.subrange(at + 1, at + 4) =~= rest.subrange(at, at + 3));
                assert(text::occurs_at(s, escape(), at + 1));
            }
        }
        lemma_unseal(rest);
        let all = sealed(s);
        let tail = sealed(rest);
        assert(seq![s[0]] + rest =~= s);
        if s[0] == '_' && (s.len() == 1 || s[1] == '_') {
            assert(all.subrange(0, 3) =~= escape());
            assert(all.skip(3) =~= tail);
        } else {
            assert(all.drop_first() =~= tail);
            if text::occurs_at(all, escape(), 0) {
                let head = all.subrange(0, 3);
                assert(head[0] == all[0] && head[1] == all[1] && head[2] == all[2]);
                assert(all[1] == tail[0] && all[2] == tail[1]);
                assert(rest.len() > 0 && rest[0] == '5');
                let last = rest.drop_first();
                assert(tail == seq![rest[0]] + sealed(last));
                assert(tail[1] == sealed(last)[0]);
                assert(last.len() > 0 && last[0] == 'F');
                assert(s.subrange(0, 3) =~= escape());
                assert(text::occurs_at(s, escape(), 0));
            }
        }
    }
}

/// In a sealed text every underscore is followed by something else.
proof fn lemma_sealed(s: Seq<char>, at: int)
    requires
        0 <= at < sealed(s).len(),
    ensures
        sealed(s)[at] == '_' ==> at + 1 < sealed(s).len() && sealed(s)[at + 1] != '_',
        sealed(s)[at] == '/' ==> s.contains('/'),
    decreases s.len(),
{
    let all = sealed(s);
    let rest = s.drop_first();
    let tail = sealed(rest);
    if s[0] == '_' && (s.len() == 1 || s[1] == '_') {
        if at >= 3 {
            lemma_sealed(rest, at - 3);
            assert(all[at] == tail[at - 3]);
            if rest.contains('/') {
                let i = choose|i: int| 0 <= i < rest.len() && rest[i] == '/';
                assert(s[i + 1] == '/');
            }
        }
    } else if at >= 1 {
        lemma_sealed(rest, at - 1);
        assert(all[at] == tail[at - 1]);
        if rest.contains('/') {
            let i = choose|i: int| 0 <= i < rest.len() && rest[i] == '/';
            assert(s[i + 1] == '/');
        }
    } else {
        assert(all[0] == s[0]);
        if s[0] == '_' {
            assert(rest.len() > 0 && rest[0] == s[1]);
            assert(tail[0] == rest[0]);
        }
    }
}

/// An encoded segment reads back, is empty only for the empty segment, and holds neither a slash nor
/// an underscore that could begin a separator.
proof fn lemma_encoded_segment(t: Seq<char>)
    ensures
        unsealed(encoded_segment(t)) == form_encoded(t),
        encoded_segment(t).len() == 0 <==> t.len() == 0,
        forall|at: int|
            0 <= at < encoded_segment(t).len() ==> (#[trigger] encoded_segment(t)[at]) != '/' && (
            encoded_segment(t)[at] == '_' ==> at + 1 < encoded_segment(t).len()
                && encoded_segment(t)[at + 1] != '_'),
{
    let form = form_encoded(t);
    lemma_form_is_bytes(t);
    assert forall|at: int| !#[trigger] text::occurs_at(form, escape(), at) by {
        lemma_plain_bytes(encode_utf8(t), at);
    }
    lemma_unseal(form);
    if t.len() > 0 {
        lemma_char_is_bytes(t.last());
        assert(encode_scalar(t.last() as u32).len() > 0);
        assert(form.len() > 0);
    }
    assert forall|at: int| 0 <= at < encoded_segment(t).len() implies (
    #[trigger] encoded_segment(t)[at]) != '/' && (encoded_segment(t)[at] == '_' ==> at + 1
        < encoded_segment(t).len() && encoded_segment(t)[at + 1] != '_') by {
        lemma_sealed(form, at);
        if form.contains('/') {
            let i = choose|i: int| 0 <= i < form.len() && form[i] == '/';
            lemma_plain_bytes(encode_utf8(t), i);
        }
    }
}

/// The file name of a domain splits into the domain's encoded segments.
proof fn lemma_encoded_segments_split(domain: Seq<char>)
    ensures
        pieces::pieces(path_text(domain), seq!['_', '_']) == encoded_segments(domain),
{
    let sep = seq!['_', '_'];
    let own = pieces::pieces(domain, seq!['/']);
    let parts = encoded_segments(domain);
    pieces::joining_undoes_splitting(domain, seq!['/']);
    assert forall|k: int, at: int|
        #![trigger text::occurs_at(parts[k] + sep, sep, at)]
        0 <= k < parts.len() - 1 && 0 <= at < parts[k].len() implies !text::occurs_at(
        parts[k] + sep,
        sep,
        at,
    ) by {
        lemma_encoded_segment(own[k]);
        assert(parts[k] == encoded_segment(own[k]));
        if text::occurs_at(parts[k] + sep, sep, at) {
            let s = parts[k] + sep;
            assert(s.subrange(at, at + 2)[0] == s[at]);
            assert(s.subrange(at, at + 2)[1] == s[at + 1]);
            assert(encoded_segment(own[k])[at] == '_');
        }
    }
    assert forall|at: int| !#[trigger] text::occurs_at(parts.last(), sep, at) by {
        let s = parts.last();
        lemma_encoded_segment(own.last());
        assert(s == encoded_segment(own.last()));
        if text::occurs_at(s, sep, at) {
            assert(s.subrange(at, at + 2)[0] == s[at]);
            assert(s.subrange(at, at + 2)[1] == s[at + 1]);
            assert(encoded_segment(own.last())[at] == '_');
        }
    }
    pieces::splitting_undoes_joining(parts, sep);
}

/// Different domains have different file names.
pub proof fn file_names_tell_domains_apart(a: Seq<char>, b: Seq<char>)
    requires
        path_text(a) == path_text(b),
    ensures
        a == b,
{
    let slash = seq!['/'];
    let x = pieces::pieces(a, slash);
    let y = pieces::pieces(b, slash);
    lemma_encoded_segments_split(a);
    lemma_encoded_segments_split(b);
    assert(encoded_segments(a) == encoded_segments(b));
    assert(x.len() == encoded_segments(a).len() && y.len() == encoded_segments(b).len());
    assert forall|k: int| 0 <= k < x.len() implies x[k] == y[k] by {
        assert(encoded_segments(a)[k] == encoded_segment(x[k]));
        assert(encoded_segments(b)[k] == encoded_segment(y[k]));
        lemma_encoded_segment(x[k]);
        lemma_encoded_segment(y[k]);
        lemma_form_tells_apart(x[k], y[k]);
    }
    assert(x =~= y);
    pieces::joining_undoes_splitting(a, slash);
    pieces::joining_undoes_splitting(b, slash);
}

proof fn lemma_joined_without(parts: Seq<Seq<char>>, sep: Seq<char>, c: char)
    requires
        !sep.contains(c),
        forall|k: int| 0 <= k < parts.len() ==> !(#[trigger] parts[k]).contains(c),
    ensures
        !pieces::joined(parts, sep).contains(c),
    decreases parts.len(),
{
    if parts.len() == 1 {
        assert(!parts[0].contains(c));
    } else if parts.len() > 1 {
        let rest = parts.skip(1);
        assert forall|k: int| 0 <= k < rest.len() implies !(#[trigger] rest[k]).contains(c) by {
            assert(rest[k] == parts[k + 1]);
        }
        lemma_joined_without(rest, sep, c);
        let tail = pieces::joined(rest, sep);
        let all = parts[0] + sep + tail;
        if all.contains(c) {
            let i = choose|i: int| 0 <= i < all.len() && all[i] == c;
            let n = parts[0].len() as int;
            let m = n + sep.len();
            if i < n {
                assert(parts[0][i] == c);
                assert(parts[0].contains(c));
            } else if i < m {
                assert(sep[i - n] == c);
            } else {
                assert(tail[i - m] == c);
            }
        }
    }
}

/// The file name of a domain holds no slash.
pub proof fn file_names_hold_no_slash(domain: Seq<char>)
    ensures
        !path_text(domain).contains('/'),
{
    let own = pieces::pieces(domain, seq!['/']);
    let parts = encoded_segments(domain);
    assert forall|k: int| 0 <= k < parts.len() implies !(#[trigger] parts[k]).contains('/') by {
        lemma_encoded_segment(own[k]);
        assert(parts[k] == encoded_segment(own[k]));
        if parts[k].contains('/') {
            let i = choose|i: int| 0 <= i < parts[k].len() && parts[k][i] == '/';
            assert(encoded_segment(own[k])[i] == '/');
        }
    }
    assert(!seq!['_', '_'].contains('/'));
    lemma_joined_without(parts, seq!['_', '_'], '/');
}

/// The name of a domain's dataset directory.
pub fn dataset_dir_name(domain: &str) -> (r: String)
    ensures
        r@ == path_text(domain@) + DATASET_SUFFIX@,
        r@ == path_text(domain@) + ".lance"@,
{
    let mut name = encode_domain_path(domain);
    name.append(DATASET_SUFFIX);
    name
}

/// What a directory name says in front of the dataset suffix; none without the suffix.
fn stem_of(name: &str) -> (r: Option<String>)
    ensures
        match r {
            Some(s) => name@ == s@ + DATASET_SUFFIX@,
            None => forall|s: Seq<char>| name@ != #[trigger] (s + DATASET_SUFFIX@),
        },
{
    let x = text::chars_of(name);
    let p = text::chars_of(DATASET_SUFFIX);
    if p.len() > x.len() {
        return None;
    }
    let at = x.len() - p.len();
    let mut stem = String::new();
    let mut i: usize = 0;
    assert(stem@ =~= x@.take(0));
    while i < at
        invariant
            i <= at <= x.len(),
            stem@ == x@.take(i as int),
        decreases at - i,
    {
        stem.push(x[i]);
        assert(stem@ =~= x@.take(i + 1));
        i = i + 1;
    }
    let mut j: usize = 0;
    while j < p.len()
        invariant
            j <= p.len(),
            at + p.len() == x.len(),
            x@ == name@,
            p@ == DATASET_SUFFIX@,
            forall|k: int| 0 <= k < j ==> x@[at + k] == #[trigger] p@[k],
        decreases p.len() - j,
    {
        if x[at + j] != p[j] {
            proof {
                assert forall|s: Seq<char>| name@ != #[trigger] (s + DATASET_SUFFIX@) by {
                    if name@ == s + DATASET_SUFFIX@ {
                        assert((s + DATASET_SUFFIX@)[at + j] == p@[j as int]);
                    }
                }
            }
            return None;
        }
        j = j + 1;
    }
    assert(name@ =~= stem@ + DATASET_SUFFIX@);
    Some(stem)
}

/// The directory name is a dataset's: it has the suffix, and what stands in front of it decodes.
pub open spec fn names_dataset(name: Seq<char>, stem: Seq<char>) -> bool {
    name == stem + DATASET_SUFFIX@ && all_decode(pieces::pieces(stem, seq!['_', '_']))
}

/// The domain of a dataset directory, from the directory's name. The directory of a domain gives that
/// domain.
pub fn domain_of_dir(name: &str) -> (r: Option<String>)
    ensures
        match r {
            Some(d) => exists|stem: Seq<char>| #[trigger]
                names_dataset(name@, stem) && d@ == decoded_path(
                    pieces::pieces(stem, seq!['_', '_']),
                ),
            None => forall|stem: Seq<char>| !#[trigger] names_dataset(name@, stem),
        },
        forall|domain: Seq<char>| #[trigger]
            path_text(domain) + DATASET_SUFFIX@ == name@ ==> r is Some && r->0@ == domain,
{
    match stem_of(name) {
        Some(stem) => {
            let r = decode_domain_path(stem.as_str());
            proof {
                assert forall|s: Seq<char>| name@ == #[trigger] (s + DATASET_SUFFIX@) implies s
                    == stem@ by {
                    lemma_same_stem(s, stem@, DATASET_SUFFIX@);
                }
                match &r {
                    Some(d) => {
                        assert(names_dataset(name@, stem@));
                    },
                    None => {
                        assert forall|s: Seq<char>| !#[trigger] names_dataset(name@, s) by {
                            if names_dataset(name@, s) {
                                assert(name@ == s + DATASET_SUFFIX@);
                            }
                        }
                    },
                }
            }
            r
        },
        None => None,
    }
}

proof fn lemma_same_stem(a: Seq<char>, b: Seq<char>, suffix: Seq<char>)
    requires
        a + suffix == b + suffix,
    ensures
        a == b,
{
    let x = a + suffix;
    let y = b + suffix;
    assert(x.len() == a.len() + suffix.len());
    assert(y.len() == b.len() + suffix.len());
    assert(x.take(a.len() as int) =~= a);
    assert(y.take(b.len() as int) =~= b);
}

/// Different domains have different dataset directories, so that what is done to one leaves the
/// others alone.
pub proof fn directories_tell_domains_apart(a: Seq<char>, b: Seq<char>)
    requires
        path_text(a) + DATASET_SUFFIX@ == path_text(b) + DATASET_SUFFIX@,
    ensures
        a == b,
{
    lemma_same_stem(path_text(a), path_text(b), DATASET_SUFFIX@);
    file_names_tell_domains_apart(a, b);
}

/// An entry of the directory that holds the datasets.
#[derive(Debug)]
pub struct DirEntry {
    pub name: String,
    pub is_dir: bool,
}

/// An entry is a dataset's directory.
pub open spec fn is_dataset(entry: DirEntry) -> bool {
    entry.is_dir && exists|stem: Seq<char>| #[trigger] names_dataset(entry.name@, stem)
}

/// The positions of the datasets among the first `n` entries.
pub open spec fn dataset_positions(entries: Seq<DirEntry>, n: int) -> Seq<int>
    decreases n,
{
    if n <= 0 {
        Seq::empty()
    } else if is_dataset(entries[n - 1]) {
        dataset_positions(entries, n - 1).push(n - 1)
    } else {
        dataset_positions(entries, n - 1)
    }
}

/// A domain is that of a dataset directory's name.
pub open spec fn is_domain_of(domain: Seq<char>, name: Seq<char>) -> bool {
    exists|stem: Seq<char>| #[trigger]
        names_dataset(name, stem) && domain == decoded_path(
            pieces::pieces(stem, seq!['_', '_']),
        )
}

/// The domains that have a dataset on disk, in the order of the directory. Every domain whose
/// dataset directory is there is found.
pub fn discover_domains(entries: &Vec<DirEntry>) -> (r: Vec<String>)
    ensures
        r.len() == dataset_positions(entries@, entries@.len() as int).len(),
        forall|k: int|
            0 <= k < r.len() ==> is_domain_of(
                (#[trigger] r@[k])@,
                entries@[dataset_positions(entries@, entries@.len() as int)[k]].name@,
            ),
        forall|domain: Seq<char>, i: int|
            #![trigger path_text(domain), entries@[i]]
            0 <= i < entries@.len() && entries@[i].is_dir && entries@[i].name@ == path_text(domain)
                + DATASET_SUFFIX@ ==> filter::lists(r@, domain),
{
    let mut out: Vec<String> = Vec::new();
    let mut i: usize = 0;
    while i < entries.len()
        invariant
            i <= entries.len(),
            out.len() == dataset_positions(entries@, i as int).len(),
            forall|k: int|
                0 <= k < out.len() ==> is_domain_of(
                    (#[trigger] out@[k])@,
                    entries@[dataset_positions(entries@, i as int)[k]].name@,
                ),
            forall|domain: Seq<char>, j: int|
                #![trigger path_text(domain), entries@[j]]
                0 <= j < i && entries@[j].is_dir && entries@[j].name@ == path_text(domain)
                    + DATASET_SUFFIX@ ==> filter::lists(out@, domain),
        decreases entries.len() - i,
    {
        let ghost before = out@;
        let entry = &entries[i];
        if entry.is_dir {
            match domain_of_dir(entry.name.as_str()) {
                Some(domain) => {
                    assert(is_domain_of(domain@, entry.name@));
                    out.push(domain);
                    proof {
                        assert(out@[before.len() as int]@ == domain@);
                        assert forall|d: Seq<char>| #[trigger]
                            filter::lists(before, d) implies filter::lists(out@, d) by {
                            let k = choose|k: int|
                                0 <= k < before.len() && (#[trigger] before[k])@ == d;
                            assert(out@[k]@ == d);
                        }
                    }
                },
                None => {},
            }
        }
        i = i + 1;
    }
    out
}


/// A character of an ordinary domain name: a lower-case letter, a digit, a hyphen or a dot, or an
/// underscore.
pub open spec fn is_ordinary(c: char) -> bool {
    'a' <= c <= 'z' || '0' <= c <= '9' || c == '-' || c == '.' || c == '_'
}

/// An ordinary domain name: ordinary characters, with something other than an underscore behind each
/// underscore.
pub open spec fn is_ordinary_name(s: Seq<char>) -> bool {
    &&& forall|i: int| 0 <= i < s.len() ==> is_ordinary(#[trigger] s[i])
    &&& forall|i: int|
        0 <= i < s.len() && #[trigger] s[i] == '_' ==> i + 1 < s.len() && s[i + 1] != '_'
}

proof fn lemma_ordinary_form(s: Seq<char>)
    requires
        forall|i: int| 0 <= i < s.len() ==> is_ordinary(#[trigger] s[i]),
    ensures
        form_encoded(s) == s,
    decreases s.len(),
{
    if s.len() > 0 {
        lemma_ordinary_form(s.drop_last());
        assert(is_ordinary(s[s.len() - 1]));
        assert(s.drop_last() + seq![s.last()] =~= s);
    } else {
        assert(s =~= Seq::<char>::empty());
    }
}

proof fn lemma_ordinary_seal(s: Seq<char>)
    requires
        forall|i: int|
            0 <= i < s.len() && #[trigger] s[i] == '_' ==> i + 1 < s.len() && s[i + 1] != '_',
    ensures
        sealed(s) == s,
    decreases s.len(),
{
    if s.len() > 0 {
        let rest = s.drop_first();
        assert forall|i: int| 0 <= i < rest.len() && #[trigger] rest[i] == '_' implies i + 1
            < rest.len() && rest[i + 1] != '_' by {
            assert(s[i + 1] == '_');
            assert(rest[i + 1] == s[i + 1 + 1]);
        }
        lemma_ordinary_seal(rest);
        assert(s[0] == '_' ==> s.len() > 1 && s[1] != '_');
        assert(seq![s[0]] + rest =~= s);
    } else {
        assert(s =~= Seq::<char>::empty());
    }
}

/// An ordinary domain name is its own file name.
pub proof fn ordinary_names_stay(domain: Seq<char>)
    requires
        is_ordinary_name(domain),
    ensures
        path_text(domain) == domain,
{
    let slash = seq!['/'];
    let parts = seq![domain];
    assert forall|at: int| !#[trigger] text::occurs_at(parts.last(), slash, at) by {
        if text::occurs_at(domain, slash, at) {
            assert(domain.subrange(at, at + 1)[0] == '/');
            assert(is_ordinary(domain[at]));
        }
    }
    pieces::splitting_undoes_joining(parts, slash);
    assert(pieces::joined(parts, slash) == domain);
    lemma_ordinary_form(domain);
    lemma_ordinary_seal(domain);
    assert(encoded_segments(domain) =~= seq![domain]);
}

/// A slash becomes two underscores: what is in front of the first slash and what is behind it are
/// named on their own.
pub proof fn slashes_become_underscores(front: Seq<char>, behind: Seq<char>)
    requires
        !front.contains('/'),
    ensures
        path_text(front + seq!['/'] + behind) == path_text(front) + seq!['_', '_'] + path_text(
            behind,
        ),
{
    let slash = seq!['/'];
    let s = front + slash + behind;
    let tail = pieces::pieces(behind, slash);
    let parts = seq![front] + tail;
    pieces::joining_undoes_splitting(behind, slash);
    lemma_split_at_slashes(s);
    lemma_split_at_slashes(behind);
    assert(!front.contains('/'));
    assert forall|at: int| !#[trigger] text::occurs_at(front, slash, at) by {
        if text::occurs_at(front, slash, at) {
            assert(front.subrange(at, at + 1)[0] == '/');
            assert(front.contains(front[at]));
        }
    }
    pieces::splitting_undoes_joining(seq![front], slash);
    assert(pieces::joined(seq![front], slash) == front);
    assert(parts.skip(1) =~= tail);
    assert(pieces::joined(parts, slash) =~= s);
    assert(parts.last() == tail.last());
    assert forall|k: int, at: int|
        #![trigger text::occurs_at(parts[k] + slash, slash, at)]
        0 <= k < parts.len() - 1 && 0 <= at < parts[k].len() implies !text::occurs_at(
        parts[k] + slash,
        slash,
        at,
    ) by {
        if text::occurs_at(parts[k] + slash, slash, at) {
            assert((parts[k] + slash).subrange(at, at + 1)[0] == '/');
            assert(parts[k][at] == '/');
            if k == 0 {
                assert(front.contains(front[at]));
            } else {
                pieces::pieces_hold_no_separator(behind, slash, k - 1, at);
                assert(tail[k - 1].subrange(at, at + 1) =~= slash);
            }
        }
    }
    assert forall|at: int| !#[trigger] text::occurs_at(parts.last(), slash, at) by {
        pieces::pieces_hold_no_separator(behind, slash, tail.len() - 1, at);
    }
    pieces::splitting_undoes_joining(parts, slash);
    assert(encoded_segments(s) =~= seq![encoded_segment(front)] + encoded_segments(behind));
    assert(encoded_segments(front) =~= seq![encoded_segment(front)]);
    let all = encoded_segments(s);
    assert(all.skip(1) =~= encoded_segments(behind));
}

proof fn lemma_split_at_slashes(s: Seq<char>)
    ensures
        pieces::pieces(s, seq!['/']).len() > 0,
{
    lemma_some_piece(s, seq!['/'], 0, 0);
}

proof fn lemma_some_piece(s: Seq<char>, sep: Seq<char>, start: int, i: int)
    ensures
        pieces::split_from(s, sep, start, i).len() > 0,
    decreases s.len() - i,
{
    if sep.len() > 0 && i + sep.len() <= s.len() && !text::occurs_at(s, sep, i) {
        lemma_some_piece(s, sep, start, i + 1);
    }
}

/// A segment reads as its pairs stand: each name, and behind it, where there is a value, an equals
/// sign and the value.
pub proof fn pairs_read_in_order(pairs: Seq<(String, String)>, p: (String, String))
    ensures
        segment_of(pair_views(Seq::empty())) is None,
        segment_of(pair_views(pairs.push(p))) is Some,
        ({
            let front = pairs_text(pair_views(pairs), pairs.len() as int);
            let all = segment_of(pair_views(pairs.push(p)))->0;
            let at = front.len() as int;
            &&& all.take(at) == front
            &&& p.1@.len() == 0 ==> all.skip(at) == p.0@
            &&& p.1@.len() > 0 ==> all.len() == at + p.0@.len() + 1 + p.1@.len() && all.subrange(
                at,
                at + p.0@.len(),
            ) == p.0@ && all[at + p.0@.len()] == '=' && all.skip(at + p.0@.len() + 1) == p.1@
            &&& pairs.len() > 0 ==> segment_of(pair_views(pairs)) == Some(front)
            &&& pairs.len() == 0 ==> front.len() == 0
        }),
{
    let views = pair_views(pairs.push(p));
    let n = pairs.len() as int;
    lemma_pairs_prefix(pair_views(pairs), views, n);
    assert(views[n] == (p.0@, p.1@));
    let front = pairs_text(pair_views(pairs), n);
    let all = front + pair_text((p.0@, p.1@));
    assert(all.take(front.len() as int) =~= front);
    if p.1@.len() == 0 {
        assert(all.skip(front.len() as int) =~= p.0@);
    } else {
        let at = front.len() as int;
        assert(all.subrange(at, at + p.0@.len()) =~= p.0@);
        assert(all.skip(at + p.0@.len() + 1) =~= p.1@);
    }
}

proof fn lemma_pairs_prefix(
    a: Seq<(Seq<char>, Seq<char>)>,
    b: Seq<(Seq<char>, Seq<char>)>,
    n: int,
)
    requires
        0 <= n <= a.len(),
        n <= b.len(),
        forall|i: int| 0 <= i < n ==> a[i] == b[i],
    ensures
        pairs_text(a, n) == pairs_text(b, n),
    decreases n,
{
    if n > 0 {
        lemma_pairs_prefix(a, b, n - 1);
    }
}

/// The datasets come in the order of the directory. What is no directory is passed over, whatever
/// its name; the directory of a domain is not.
pub proof fn datasets_come_in_directory_order(entries: Seq<DirEntry>, n: int)
    requires
        0 <= n < entries.len(),
    ensures
        !entries[n].is_dir ==> dataset_positions(entries, n + 1) == dataset_positions(entries, n),
        (forall|stem: Seq<char>| entries[n].name@ != #[trigger] (stem + ".lance"@))
            ==> dataset_positions(entries, n + 1) == dataset_positions(entries, n),
        is_dataset(entries[n]) ==> dataset_positions(entries, n + 1) == dataset_positions(
            entries,
            n,
        ).push(n),
        dataset_positions(entries, 0).len() == 0,
{
    if is_dataset(entries[n]) {
        let stem = choose|stem: Seq<char>| #[trigger] names_dataset(entries[n].name@, stem);
        assert(entries[n].name@ == stem + ".lance"@);
    }
}

} // verus!
