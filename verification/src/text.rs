//! Text helpers: ordering, prefixes, decimal numbers and concatenation.

use vstd::prelude::*;
use vstd::string::*;
use vstd::utf8::*;

verus! {

/// Lexicographic order on byte strings.
pub open spec fn bytes_le(a: Seq<u8>, b: Seq<u8>) -> bool
    decreases a.len(),
{
    if a.len() == 0 {
        true
    } else if b.len() == 0 {
        false
    } else if a[0] != b[0] {
        a[0] < b[0]
    } else {
        bytes_le(a.drop_first(), b.drop_first())
    }
}

/// The order of strings: lexicographic by UTF-8 byte values.
pub open spec fn text_le(a: Seq<char>, b: Seq<char>) -> bool {
    bytes_le(encode_utf8(a), encode_utf8(b))
}

pub proof fn lemma_bytes_le_total(a: Seq<u8>, b: Seq<u8>)
    ensures
        bytes_le(a, b) || bytes_le(b, a),
    decreases a.len(),
{
    if a.len() > 0 && b.len() > 0 {
        lemma_bytes_le_total(a.drop_first(), b.drop_first());
    }
}

pub proof fn lemma_bytes_le_transitive(a: Seq<u8>, b: Seq<u8>, c: Seq<u8>)
    requires
        bytes_le(a, b),
        bytes_le(b, c),
    ensures
        bytes_le(a, c),
    decreases a.len(),
{
    if a.len() > 0 && b.len() > 0 && c.len() > 0 && a[0] == b[0] && b[0] == c[0] {
        lemma_bytes_le_transitive(a.drop_first(), b.drop_first(), c.drop_first());
    }
}

pub proof fn lemma_bytes_le_antisymmetric(a: Seq<u8>, b: Seq<u8>)
    requires
        bytes_le(a, b),
        bytes_le(b, a),
    ensures
        a == b,
    decreases a.len(),
{
    if a.len() > 0 && b.len() > 0 {
        lemma_bytes_le_antisymmetric(a.drop_first(), b.drop_first());
        assert(a =~= seq![a[0]] + a.drop_first());
        assert(b =~= seq![b[0]] + b.drop_first());
    } else {
        assert(a =~= b);
    }
}

/// The order of strings is total, transitive and antisymmetric.
pub proof fn text_le_is_a_linear_order(a: Seq<char>, b: Seq<char>, c: Seq<char>)
    ensures
        text_le(a, a),
        text_le(a, b) || text_le(b, a),
        text_le(a, b) && text_le(b, c) ==> text_le(a, c),
        text_le(a, b) && text_le(b, a) ==> a == b,
{
    lemma_bytes_le_total(encode_utf8(a), encode_utf8(a));
    lemma_bytes_le_total(encode_utf8(a), encode_utf8(b));
    if text_le(a, b) && text_le(b, c) {
        lemma_bytes_le_transitive(encode_utf8(a), encode_utf8(b), encode_utf8(c));
    }
    if text_le(a, b) && text_le(b, a) {
        lemma_bytes_le_antisymmetric(encode_utf8(a), encode_utf8(b));
        encode_utf8_decode_utf8(a);
        encode_utf8_decode_utf8(b);
    }
}

/// Whether `a` sorts before or equal to `b`.
pub fn str_le(a: &str, b: &str) -> (r: bool)
    ensures
        r == text_le(a@, b@),
{
    let x = a.as_bytes();
    let y = b.as_bytes();
    let mut i: usize = 0;
    assert(x@.skip(0) =~= x@);
    assert(y@.skip(0) =~= y@);
    while i < x.len() && i < y.len()
        invariant
            i <= x@.len(),
            i <= y@.len(),
            x@ == encode_utf8(a@),
            y@ == encode_utf8(b@),
            bytes_le(x@, y@) == bytes_le(x@.skip(i as int), y@.skip(i as int)),
        decreases x.len() - i,
    {
        if x[i] != y[i] {
            return x[i] < y[i];
        }
        assert(x@.skip(i as int).drop_first() =~= x@.skip(i + 1));
        assert(y@.skip(i as int).drop_first() =~= y@.skip(i + 1));
        i = i + 1;
    }
    i == x.len()
}

/// The characters of a string.
pub fn chars_of(s: &str) -> (r: Vec<char>)
    ensures
        r@ == s@,
{
    let mut out: Vec<char> = Vec::new();
    for c in it: s.chars()
        invariant
            it.seq() == s@,
            out@ == s@.take(it.index() as int),
    {
        out.push(c);
    }
    assert(s@.take(s@.len() as int) =~= s@);
    out
}

/// Whether `s` begins with `prefix`.
pub fn has_prefix(s: &str, prefix: &str) -> (r: bool)
    ensures
        r == prefix@.is_prefix_of(s@),
{
    let x = chars_of(s);
    let p = chars_of(prefix);
    if p.len() > x.len() {
        return false;
    }
    let mut i: usize = 0;
    while i < p.len()
        invariant
            i <= p.len() <= x.len(),
            x@ == s@,
            p@ == prefix@,
            p@.take(i as int) == x@.take(i as int),
        decreases p.len() - i,
    {
        if p[i] != x[i] {
            proof {
                if prefix@.is_prefix_of(s@) {
                    assert(s@.subrange(0, p@.len() as int)[i as int] == s@[i as int]);
                }
            }
            return false;
        }
        assert(p@.take(i + 1) =~= p@.take(i as int).push(p@[i as int]));
        assert(x@.take(i + 1) =~= x@.take(i as int).push(x@[i as int]));
        i = i + 1;
    }
    assert(p@.take(p@.len() as int) =~= p@);
    true
}

/// Whether `pattern` occurs in `s` at position `at`.
pub open spec fn occurs_at<T>(s: Seq<T>, pattern: Seq<T>, at: int) -> bool {
    0 <= at && at + pattern.len() <= s.len() && s.subrange(at, at + pattern.len()) == pattern
}

/// Whether `pattern` occurs anywhere in `s`.
pub open spec fn occurs<T>(s: Seq<T>, pattern: Seq<T>) -> bool {
    exists|at: int| occurs_at(s, pattern, at)
}

/// Whether `pattern` occurs in `s`.
pub fn has_substring(s: &str, pattern: &str) -> (r: bool)
    ensures
        r == occurs(s@, pattern@),
{
    let x = chars_of(s);
    let p = chars_of(pattern);
    if p.len() > x.len() {
        return false;
    }
    let mut at: usize = 0;
    while at <= x.len() - p.len()
        invariant
            p.len() <= x.len(),
            at <= x.len() - p.len() + 1,
            x@ == s@,
            p@ == pattern@,
            forall|k: int| 0 <= k < at ==> !occurs_at(s@, pattern@, k),
        decreases x.len() - at,
    {
        let mut i: usize = 0;
        while i < p.len() && x[at + i] == p[i]
            invariant
                i <= p.len(),
                at + p.len() <= x.len(),
                x@.subrange(at as int, at + i) == p@.take(i as int),
            decreases p.len() - i,
        {
            assert(x@.subrange(at as int, at + i + 1) =~= x@.subrange(at as int, at + i).push(
                x@[at + i],
            ));
            assert(p@.take(i + 1) =~= p@.take(i as int).push(p@[i as int]));
            i = i + 1;
        }
        if i == p.len() {
            assert(p@.take(i as int) =~= p@);
            assert(occurs_at(s@, pattern@, at as int));
            return true;
        }
        proof {
            if occurs_at(s@, pattern@, at as int) {
                assert(s@.subrange(at as int, at + p@.len())[i as int] == s@[at + i]);
            }
        }
        at = at + 1;
    }
    false
}

/// The decimal digit `d` as a character.
pub open spec fn digit_char(d: int) -> char {
    if d == 0 {
        '0'
    } else if d == 1 {
        '1'
    } else if d == 2 {
        '2'
    } else if d == 3 {
        '3'
    } else if d == 4 {
        '4'
    } else if d == 5 {
        '5'
    } else if d == 6 {
        '6'
    } else if d == 7 {
        '7'
    } else if d == 8 {
        '8'
    } else {
        '9'
    }
}

/// The decimal representation of `n`, without leading zeros.
pub open spec fn decimal(n: nat) -> Seq<char>
    decreases n,
{
    if n < 10 {
        seq![digit_char(n as int)]
    } else {
        decimal(n / 10).push(digit_char((n % 10) as int))
    }
}

fn digit_str(d: u64) -> (r: &'static str)
    requires
        d < 10,
    ensures
        r@ == seq![digit_char(d as int)],
{
    proof {
        reveal_strlit("0");
        reveal_strlit("1");
        reveal_strlit("2");
        reveal_strlit("3");
        reveal_strlit("4");
        reveal_strlit("5");
        reveal_strlit("6");
        reveal_strlit("7");
        reveal_strlit("8");
        reveal_strlit("9");
    }
    if d == 0 {
        "0"
    } else if d == 1 {
        "1"
    } else if d == 2 {
        "2"
    } else if d == 3 {
        "3"
    } else if d == 4 {
        "4"
    } else if d == 5 {
        "5"
    } else if d == 6 {
        "6"
    } else if d == 7 {
        "7"
    } else if d == 8 {
        "8"
    } else {
        "9"
    }
}

/// Appends the decimal representation of `n` to `out`.
pub fn push_decimal(out: &mut String, n: u64)
    ensures
        final(out)@ == old(out)@ + decimal(n as nat),
    decreases n,
{
    if n >= 10 {
        push_decimal(out, n / 10);
    }
    out.append(digit_str(n % 10));
    assert(out@ =~= old(out)@ + decimal(n as nat));
}

/// The decimal representation of `n` determines `n`.
pub proof fn decimal_is_injective(a: nat, b: nat)
    requires
        decimal(a) == decimal(b),
    ensures
        a == b,
    decreases a,
{
    lemma_decimal_len(a);
    lemma_decimal_len(b);
    if a < 10 && b < 10 {
        assert(decimal(a)[0] == digit_char(a as int));
        assert(decimal(b)[0] == digit_char(b as int));
    } else if a >= 10 && b >= 10 {
        assert(decimal(a).drop_last() =~= decimal(a / 10));
        assert(decimal(b).drop_last() =~= decimal(b / 10));
        decimal_is_injective(a / 10, b / 10);
        assert(decimal(a).last() == digit_char((a % 10) as int));
        assert(decimal(b).last() == digit_char((b % 10) as int));
    } else if a < 10 {
        lemma_decimal_len(b / 10);
    } else {
        lemma_decimal_len(a / 10);
    }
}

proof fn lemma_decimal_len(n: nat)
    ensures
        decimal(n).len() >= 1,
    decreases n,
{
    if n >= 10 {
        lemma_decimal_len(n / 10);
    }
}

proof fn lemma_first_difference(x: Seq<u8>, y: Seq<u8>, i: int)
    requires
        0 <= i < x.len(),
        i < y.len(),
        x[i] != y[i],
        forall|j: int| 0 <= j < i ==> #[trigger] x[j] == y[j],
    ensures
        bytes_le(x, y) <==> x[i] < y[i],
    decreases i,
{
    if i > 0 {
        let a = x.drop_first();
        let b = y.drop_first();
        assert(x[0] == y[0]);
        assert forall|j: int| 0 <= j < i - 1 implies #[trigger] a[j] == b[j] by {
            assert(x[j + 1] == y[j + 1]);
        }
        lemma_first_difference(a, b, i - 1);
    }
}

/// Strings are ordered by the first byte in which they differ, the smaller first.
pub proof fn strings_order_by_their_first_difference(a: Seq<char>, b: Seq<char>, i: int)
    requires
        0 <= i < encode_utf8(a).len(),
        i < encode_utf8(b).len(),
        encode_utf8(a)[i] != encode_utf8(b)[i],
        forall|j: int| 0 <= j < i ==> #[trigger] encode_utf8(a)[j] == encode_utf8(b)[j],
    ensures
        text_le(a, b) <==> encode_utf8(a)[i] < encode_utf8(b)[i],
{
    lemma_first_difference(encode_utf8(a), encode_utf8(b), i);
}

/// A string comes in front of every longer one that begins with it.
pub proof fn prefixes_come_first(a: Seq<char>, more: Seq<char>)
    ensures
        text_le(a, a + more),
        more.len() > 0 ==> !text_le(a + more, a),
    decreases a.len(),
{
    let b = a + more;
    if a.len() > 0 {
        prefixes_come_first(a.drop_first(), more);
        assert(b.drop_first() =~= a.drop_first() + more);
        lemma_common_head(encode_scalar(a[0] as u32), encode_utf8(a.drop_first()), encode_utf8(
            b.drop_first(),
        ));
        lemma_common_head(encode_scalar(a[0] as u32), encode_utf8(b.drop_first()), encode_utf8(
            a.drop_first(),
        ));
        assert(encode_utf8(b) == encode_scalar(b[0] as u32) + encode_utf8(b.drop_first()));
        assert(b[0] == a[0]);
    } else {
        assert(b =~= more);
        if more.len() > 0 {
            encode_utf8_first_scalar(more);
            assert(encode_utf8(more).len() > 0);
        }
    }
}

proof fn lemma_common_head(head: Seq<u8>, x: Seq<u8>, y: Seq<u8>)
    ensures
        bytes_le(head + x, head + y) <==> bytes_le(x, y),
    decreases head.len(),
{
    if head.len() == 0 {
        assert(head + x =~= x);
        assert(head + y =~= y);
    } else {
        assert((head + x).drop_first() =~= head.drop_first() + x);
        assert((head + y).drop_first() =~= head.drop_first() + y);
        lemma_common_head(head.drop_first(), x, y);
    }
}

/// The number that decimal digits stand for.
pub open spec fn read_decimal(s: Seq<char>) -> int
    decreases s.len(),
{
    if s.len() == 0 {
        0
    } else {
        10 * read_decimal(s.drop_last()) + (s.last() as u32 - 0x30)
    }
}

/// The decimal digits of a number read as that number, and have no needless zero in front.
pub proof fn decimals_read_back(n: nat)
    ensures
        read_decimal(decimal(n)) == n,
        decimal(n).len() > 0,
        forall|i: int| 0 <= i < decimal(n).len() ==> '0' <= #[trigger] decimal(n)[i] <= '9',
        n > 0 ==> decimal(n)[0] != '0',
    decreases n,
{
    let s = decimal(n);
    if n >= 10 {
        decimals_read_back(n / 10);
        assert(s.drop_last() =~= decimal(n / 10));
        assert forall|i: int| 0 <= i < s.len() implies '0' <= #[trigger] s[i] <= '9' by {
            if i < s.len() - 1 {
                assert(s[i] == decimal(n / 10)[i]);
            }
        }
    } else {
        reveal_with_fuel(read_decimal, 2);
        assert(s.drop_last() =~= Seq::<char>::empty());
    }
}

/// A pattern occurs in a text that has it between two parts, and only there.
pub proof fn patterns_stand_between_parts(s: Seq<char>, pattern: Seq<char>)
    ensures
        occurs(s, pattern) <==> exists|at: int|
            0 <= at <= s.len() - pattern.len() && #[trigger] s.take(at) + pattern + s.skip(
                at + pattern.len(),
            ) == s,
{
    if occurs(s, pattern) {
        let at = choose|at: int| occurs_at(s, pattern, at);
        assert(s.subrange(at, at + pattern.len()) == pattern);
        assert(s.take(at) + pattern + s.skip(at + pattern.len()) =~= s);
    }
    if exists|at: int|
        0 <= at <= s.len() - pattern.len() && #[trigger] s.take(at) + pattern + s.skip(
            at + pattern.len(),
        ) == s {
        let at = choose|at: int|
            0 <= at <= s.len() - pattern.len() && #[trigger] s.take(at) + pattern + s.skip(
                at + pattern.len(),
            ) == s;
        let t = s.take(at) + pattern + s.skip(at + pattern.len());
        assert(t.subrange(at, at + pattern.len()) =~= pattern);
        assert(occurs_at(s, pattern, at));
    }
}

} // verus!
