//! Splitting texts at a separator, and joining them again.

use crate::grouping;
use crate::text;
use vstd::prelude::*;
use vstd::string::*;

verus! {

/// The pieces of `s` from `start` on, with separators looked for from `i` on.
pub open spec fn split_from(s: Seq<char>, sep: Seq<char>, start: int, i: int) -> Seq<Seq<char>>
    decreases s.len() - i,
{
    if sep.len() == 0 || i + sep.len() > s.len() {
        seq![s.subrange(start, s.len() as int)]
    } else if text::occurs_at(s, sep, i) {
        seq![s.subrange(start, i)] + split_from(s, sep, i + sep.len(), i + sep.len())
    } else {
        split_from(s, sep, start, i + 1)
    }
}

/// The pieces of `s` between the separators, which are taken from left to right.
pub open spec fn pieces(s: Seq<char>, sep: Seq<char>) -> Seq<Seq<char>> {
    split_from(s, sep, 0, 0)
}

/// The parts in order, with the separator between them.
pub open spec fn joined(parts: Seq<Seq<char>>, sep: Seq<char>) -> Seq<char>
    decreases parts.len(),
{
    if parts.len() == 0 {
        Seq::empty()
    } else if parts.len() == 1 {
        parts[0]
    } else {
        parts[0] + sep + joined(parts.skip(1), sep)
    }
}

/// No separator begins inside a part, not even one that ends in the separator after it.
pub open spec fn stand_apart(parts: Seq<Seq<char>>, sep: Seq<char>) -> bool {
    &&& parts.len() > 0
    &&& forall|k: int, at: int|
        #![trigger text::occurs_at(parts[k] + sep, sep, at)]
        0 <= k < parts.len() - 1 && 0 <= at < parts[k].len() ==> !text::occurs_at(
            parts[k] + sep,
            sep,
            at,
        )
    &&& forall|at: int| !#[trigger] text::occurs_at(parts.last(), sep, at)
}

fn text_between(chars: &Vec<char>, lo: usize, hi: usize) -> (r: String)
    requires
        lo <= hi <= chars.len(),
    ensures
        r@ == chars@.subrange(lo as int, hi as int),
{
    let mut out = String::new();
    let mut i: usize = lo;
    assert(out@ =~= chars@.subrange(lo as int, lo as int));
    while i < hi
        invariant
            lo <= i <= hi <= chars.len(),
            out@ == chars@.subrange(lo as int, i as int),
        decreases hi - i,
    {
        out.push(chars[i]);
        assert(out@ =~= chars@.subrange(lo as int, i + 1));
        i = i + 1;
    }
    out
}

fn occurs_here(s: &Vec<char>, sep: &Vec<char>, at: usize) -> (r: bool)
    requires
        at + sep.len() <= s.len(),
    ensures
        r == text::occurs_at(s@, sep@, at as int),
{
    let mut i: usize = 0;
    while i < sep.len()
        invariant
            i <= sep.len(),
            at + sep.len() <= s.len(),
            s@.subrange(at as int, at + i) == sep@.take(i as int),
        decreases sep.len() - i,
    {
        if s[at + i] != sep[i] {
            proof {
                if text::occurs_at(s@, sep@, at as int) {
                    assert(s@.subrange(at as int, at + sep@.len())[i as int] == s@[at + i]);
                }
            }
            return false;
        }
        assert(s@.subrange(at as int, at + i + 1) =~= s@.subrange(at as int, at + i).push(
            s@[at + i],
        ));
        assert(sep@.take(i + 1) =~= sep@.take(i as int).push(sep@[i as int]));
        i = i + 1;
    }
    assert(sep@.take(i as int) =~= sep@);
    true
}

/// Splits a text at a separator.
pub fn split_text(s: &str, sep: &str) -> (r: Vec<String>)
    requires
        sep@.len() > 0,
    ensures
        grouping::views(r@) == pieces(s@, sep@),
{
    let x = text::chars_of(s);
    let p = text::chars_of(sep);
    let mut out: Vec<String> = Vec::new();
    let mut start: usize = 0;
    let mut i: usize = 0;
    assert(grouping::views(out@) + split_from(s@, sep@, 0, 0) =~= pieces(s@, sep@));
    while i <= x.len() && p.len() <= x.len() - i
        invariant
            x@ == s@,
            p@ == sep@,
            p.len() > 0,
            start <= i <= x.len(),
            grouping::views(out@) + split_from(s@, sep@, start as int, i as int) == pieces(
                s@,
                sep@,
            ),
        decreases x.len() - i,
    {
        if occurs_here(&x, &p, i) {
            let ghost before = out@;
            let piece = text_between(&x, start, i);
            out.push(piece);
            proof {
                let rest = split_from(s@, sep@, i + sep@.len(), i + sep@.len());
                assert(grouping::views(out@) + rest =~= grouping::views(before) + (seq![
                    s@.subrange(start as int, i as int),
                ] + rest));
            }
            i = i + p.len();
            start = i;
        } else {
            i = i + 1;
        }
    }
    let ghost before = out@;
    let piece = text_between(&x, start, x.len());
    out.push(piece);
    assert(grouping::views(out@) =~= grouping::views(before) + seq![
        s@.subrange(start as int, s@.len() as int),
    ]);
    out
}

/// Joins texts with a separator.
pub fn join_texts(parts: &Vec<String>, sep: &str) -> (r: String)
    ensures
        r@ == joined(grouping::views(parts@), sep@),
{
    let ghost all = grouping::views(parts@);
    let mut out = String::new();
    if parts.len() == 0 {
        return out;
    }
    let mut i: usize = 0;
    assert(all.skip(0) =~= all);
    assert(out@ + joined(all.skip(0), sep@) =~= joined(all, sep@));
    while i + 1 < parts.len()
        invariant
            i < parts.len(),
            all == grouping::views(parts@),
            out@ + joined(all.skip(i as int), sep@) == joined(all, sep@),
        decreases parts.len() - i,
    {
        let ghost before = out@;
        out.append(parts[i].as_str());
        out.append(sep);
        proof {
            let rest = all.skip(i as int);
            assert(rest.skip(1) =~= all.skip(i + 1));
            assert(rest[0] == parts@[i as int]@);
            assert(out@ + joined(all.skip(i + 1), sep@) =~= before + (rest[0] + sep@ + joined(
                rest.skip(1),
                sep@,
            )));
        }
        i = i + 1;
    }
    out.append(parts[i].as_str());
    assert(all.skip(i as int)[0] == parts@[i as int]@);
    assert(joined(all.skip(i as int), sep@) == parts@[i as int]@);
    out
}

proof fn lemma_joined_head(head: Seq<char>, rest: Seq<Seq<char>>, sep: Seq<char>)
    requires
        rest.len() > 0,
    ensures
        joined(seq![head] + rest, sep) == head + sep + joined(rest, sep),
{
    let all = seq![head] + rest;
    assert(all.skip(1) =~= rest);
}

proof fn lemma_split_join(s: Seq<char>, sep: Seq<char>, start: int, i: int)
    requires
        0 <= start <= i <= s.len(),
        sep.len() > 0,
    ensures
        split_from(s, sep, start, i).len() > 0,
        joined(split_from(s, sep, start, i), sep) == s.subrange(start, s.len() as int),
    decreases s.len() - i,
{
    if i + sep.len() > s.len() {
    } else if text::occurs_at(s, sep, i) {
        let next = i + sep.len();
        lemma_split_join(s, sep, next, next);
        lemma_joined_head(s.subrange(start, i), split_from(s, sep, next, next), sep);
        assert(s.subrange(start, s.len() as int) =~= s.subrange(start, i) + s.subrange(i, next)
            + s.subrange(next, s.len() as int));
    } else {
        lemma_split_join(s, sep, start, i + 1);
    }
}

/// Joining the pieces of a text gives the text back.
pub proof fn joining_undoes_splitting(s: Seq<char>, sep: Seq<char>)
    requires
        sep.len() > 0,
    ensures
        pieces(s, sep).len() > 0,
        joined(pieces(s, sep), sep) == s,
{
    lemma_split_join(s, sep, 0, 0);
    assert(s.subrange(0, s.len() as int) =~= s);
}

/// Where nothing is found up to `j`, the scan goes on from there.
proof fn lemma_scan(s: Seq<char>, sep: Seq<char>, start: int, i: int, j: int)
    requires
        0 <= start <= i <= j,
        j + sep.len() <= s.len(),
        forall|at: int| i <= at < j ==> !#[trigger] text::occurs_at(s, sep, at),
    ensures
        split_from(s, sep, start, i) == split_from(s, sep, start, j),
    decreases j - i,
{
    if i < j {
        assert(!text::occurs_at(s, sep, i));
        lemma_scan(s, sep, start, i + 1, j);
    }
}

proof fn lemma_scan_to_end(s: Seq<char>, sep: Seq<char>, start: int, i: int)
    requires
        0 <= start <= i <= s.len(),
        forall|at: int| i <= at ==> !#[trigger] text::occurs_at(s, sep, at),
    ensures
        split_from(s, sep, start, i) == seq![s.subrange(start, s.len() as int)],
    decreases s.len() - i,
{
    if i + sep.len() <= s.len() && sep.len() > 0 {
        assert(!text::occurs_at(s, sep, i));
        lemma_scan_to_end(s, sep, start, i + 1);
    }
}

/// Splitting depends only on what follows.
proof fn lemma_shift(s: Seq<char>, sep: Seq<char>, by: int, start: int, i: int)
    requires
        0 <= by <= start <= i <= s.len(),
    ensures
        split_from(s, sep, start, i) == split_from(s.skip(by), sep, start - by, i - by),
    decreases s.len() - i,
{
    let t = s.skip(by);
    assert(t.subrange(start - by, t.len() as int) =~= s.subrange(start, s.len() as int));
    if sep.len() == 0 || i + sep.len() > s.len() {
    } else {
        assert(t.subrange(i - by, i - by + sep.len()) =~= s.subrange(i, i + sep.len()));
        assert(text::occurs_at(s, sep, i) == text::occurs_at(t, sep, i - by));
        if text::occurs_at(s, sep, i) {
            lemma_shift(s, sep, by, i + sep.len(), i + sep.len());
            assert(t.subrange(start - by, i - by) =~= s.subrange(start, i));
        } else {
            lemma_shift(s, sep, by, start, i + 1);
        }
    }
}

/// Splitting gives joined parts back, where no separator begins inside a part.
pub proof fn splitting_undoes_joining(parts: Seq<Seq<char>>, sep: Seq<char>)
    requires
        sep.len() > 0,
        stand_apart(parts, sep),
    ensures
        pieces(joined(parts, sep), sep) == parts,
    decreases parts.len(),
{
    let s = joined(parts, sep);
    if parts.len() == 1 {
        assert forall|at: int| 0 <= at implies !#[trigger] text::occurs_at(s, sep, at) by {
            assert(parts.last() == s);
        }
        lemma_scan_to_end(s, sep, 0, 0);
        assert(s.subrange(0, s.len() as int) =~= s);
        assert(pieces(s, sep) =~= parts);
    } else {
        let head = parts[0];
        let rest = parts.skip(1);
        let tail = joined(rest, sep);
        let n = head.len() as int;
        let m = n + sep.len();
        assert(s == head + sep + tail);
        assert forall|at: int| 0 <= at < n implies !#[trigger] text::occurs_at(s, sep, at) by {
            assert(!text::occurs_at(parts[0] + sep, sep, at));
            assert(s.subrange(at, at + sep.len()) =~= (head + sep).subrange(at, at + sep.len()));
        }
        lemma_scan(s, sep, 0, 0, n);
        assert(s.subrange(n, m) =~= sep);
        assert(text::occurs_at(s, sep, n));
        assert(s.subrange(0, n) =~= head);
        lemma_shift(s, sep, m, m, m);
        assert(s.skip(m) =~= tail);
        assert(stand_apart(rest, sep)) by {
            assert forall|k: int, at: int|
                #![trigger text::occurs_at(rest[k] + sep, sep, at)]
                0 <= k < rest.len() - 1 && 0 <= at < rest[k].len() implies !text::occurs_at(
                rest[k] + sep,
                sep,
                at,
            ) by {
                assert(rest[k] == parts[k + 1]);
                assert(!text::occurs_at(parts[k + 1] + sep, sep, at));
            }
            assert(rest.last() == parts.last());
        }
        splitting_undoes_joining(rest, sep);
        assert(pieces(s, sep) =~= seq![head] + rest);
        assert(seq![head] + rest =~= parts);
    }
}

/// Where a piece lies in the text: at `at`, with a separator after it unless it is the last.
pub open spec fn lies_at(s: Seq<char>, sep: Seq<char>, parts: Seq<Seq<char>>, k: int, at: int) -> bool {
    &&& 0 <= at
    &&& at + parts[k].len() <= s.len()
    &&& s.subrange(at, at + parts[k].len()) == parts[k]
    &&& k < parts.len() - 1 ==> text::occurs_at(s, sep, at + parts[k].len())
}

proof fn lemma_lies(s: Seq<char>, sep: Seq<char>, start: int, i: int, k: int) -> (at: int)
    requires
        0 <= start <= i <= s.len(),
        sep.len() > 0,
        0 <= k < split_from(s, sep, start, i).len(),
    ensures
        lies_at(s, sep, split_from(s, sep, start, i), k, at),
    decreases s.len() - i,
{
    let all = split_from(s, sep, start, i);
    if i + sep.len() > s.len() {
        start
    } else if text::occurs_at(s, sep, i) {
        let next = i + sep.len();
        lemma_split_join(s, sep, next, next);
        let rest = split_from(s, sep, next, next);
        assert(all[0] == s.subrange(start, i));
        if k == 0 {
            start
        } else {
            assert(all[k] == rest[k - 1]);
            lemma_lies(s, sep, next, next, k - 1)
        }
    } else {
        lemma_lies(s, sep, start, i + 1, k)
    }
}

/// Every piece is found in the text, in front of a separator or at the end.
pub proof fn pieces_lie_in_the_text(s: Seq<char>, sep: Seq<char>, k: int) -> (at: int)
    requires
        sep.len() > 0,
        0 <= k < pieces(s, sep).len(),
    ensures
        lies_at(s, sep, pieces(s, sep), k, at),
{
    lemma_lies(s, sep, 0, 0, k)
}


proof fn lemma_no_separator(s: Seq<char>, sep: Seq<char>, start: int, i: int, k: int, at: int)
    requires
        0 <= start <= i <= s.len(),
        sep.len() > 0,
        forall|p: int| start <= p < i ==> !#[trigger] text::occurs_at(s, sep, p),
        0 <= k < split_from(s, sep, start, i).len(),
    ensures
        !text::occurs_at(split_from(s, sep, start, i)[k], sep, at),
    decreases s.len() - i,
{
    let all = split_from(s, sep, start, i);
    if i + sep.len() > s.len() {
        assert(all[k] == s.subrange(start, s.len() as int));
        if text::occurs_at(all[k], sep, at) {
            assert(s.subrange(start + at, start + at + sep.len()) =~= all[k].subrange(
                at,
                at + sep.len(),
            ));
            assert(text::occurs_at(s, sep, start + at));
        }
    } else if text::occurs_at(s, sep, i) {
        let next = i + sep.len();
        let rest = split_from(s, sep, next, next);
        if k == 0 {
            assert(all[0] == s.subrange(start, i));
            if text::occurs_at(all[0], sep, at) {
                assert(s.subrange(start + at, start + at + sep.len()) =~= all[0].subrange(
                    at,
                    at + sep.len(),
                ));
                assert(text::occurs_at(s, sep, start + at));
            }
        } else {
            assert(all[k] == rest[k - 1]);
            lemma_no_separator(s, sep, next, next, k - 1, at);
        }
    } else {
        lemma_no_separator(s, sep, start, i + 1, k, at);
    }
}

/// No piece holds the separator: a text is split at every one of them.
pub proof fn pieces_hold_no_separator(s: Seq<char>, sep: Seq<char>, k: int, at: int)
    requires
        sep.len() > 0,
        0 <= k < pieces(s, sep).len(),
    ensures
        !text::occurs_at(pieces(s, sep)[k], sep, at),
{
    lemma_no_separator(s, sep, 0, 0, k, at);
}

/// A part in front lengthens a joined text by itself and by one separator.
pub proof fn joined_parts_stand_between_separators(
    part: Seq<char>,
    parts: Seq<Seq<char>>,
    sep: Seq<char>,
)
    requires
        parts.len() > 0,
    ensures
        joined(seq![part] + parts, sep).take(part.len() as int) == part,
        joined(seq![part] + parts, sep).skip(part.len() as int).take(sep.len() as int) == sep,
        joined(seq![part] + parts, sep).skip(part.len() as int).skip(sep.len() as int) == joined(
            parts,
            sep,
        ),
        joined(seq![part], sep) == part,
{
    let all = seq![part] + parts;
    let tail = joined(parts, sep);
    assert(all.skip(1) =~= parts);
    assert(joined(all, sep) == part + sep + tail);
    assert((part + sep + tail).take(part.len() as int) =~= part);
    assert((part + sep + tail).skip(part.len() as int) =~= sep + tail);
    assert((sep + tail).take(sep.len() as int) =~= sep);
    assert((sep + tail).skip(sep.len() as int) =~= tail);
}

} // verus!
