//! Small in-memory tables: values by a pair of texts, and sets of text triples.

use vstd::prelude::*;
use vstd::string::*;

verus! {

/// A key: two texts, such as a domain and a branch.
pub type Key = (Seq<char>, Seq<char>);

struct Entry<V> {
    a: String,
    b: String,
    value: V,
}

/// Values by pairs of texts; every pair has at most one value.
pub struct Table<V> {
    entries: Vec<Entry<V>>,
}

spec fn key_of<V>(e: Entry<V>) -> Key {
    (e.a@, e.b@)
}

spec fn unique<V>(entries: Seq<Entry<V>>) -> bool {
    forall|i: int, j: int|
        #![trigger entries[i], entries[j]]
        0 <= i < j < entries.len() ==> key_of(entries[i]) != key_of(entries[j])
}

/// What the first `n` entries hold.
spec fn held<V>(entries: Seq<Entry<V>>, n: int) -> Map<Key, V>
    decreases n,
{
    if n <= 0 {
        Map::empty()
    } else {
        held(entries, n - 1).insert(key_of(entries[n - 1]), entries[n - 1].value)
    }
}

proof fn lemma_held<V>(entries: Seq<Entry<V>>, n: int)
    requires
        unique(entries),
        0 <= n <= entries.len(),
    ensures
        held(entries, n).dom().finite(),
        held(entries, n).dom().len() == n,
        forall|i: int|
            0 <= i < n ==> held(entries, n).contains_key(key_of(#[trigger] entries[i])) && held(
                entries,
                n,
            )[key_of(entries[i])] == entries[i].value,
        forall|k: Key| #[trigger]
            held(entries, n).contains_key(k) ==> exists|i: int|
                0 <= i < n && key_of(#[trigger] entries[i]) == k,
    decreases n,
{
    if n > 0 {
        lemma_held(entries, n - 1);
        let k = key_of(entries[n - 1]);
        if held(entries, n - 1).contains_key(k) {
            let i = choose|i: int| 0 <= i < n - 1 && key_of(#[trigger] entries[i]) == k;
        }
        assert forall|q: Key| #[trigger] held(entries, n).contains_key(q) implies exists|i: int|
            0 <= i < n && key_of(#[trigger] entries[i]) == q by {
            if q == k {
                assert(key_of(entries[n - 1]) == q);
            } else {
                assert(held(entries, n - 1).contains_key(q));
                let i = choose|i: int| 0 <= i < n - 1 && key_of(#[trigger] entries[i]) == q;
                assert(key_of(entries[i]) == q);
            }
        }
    }
}

proof fn lemma_held_prefix<V>(s: Seq<Entry<V>>, t: Seq<Entry<V>>, n: int)
    requires
        0 <= n <= s.len(),
        n <= t.len(),
        forall|i: int| 0 <= i < n ==> s[i] == t[i],
    ensures
        held(s, n) == held(t, n),
    decreases n,
{
    if n > 0 {
        lemma_held_prefix(s, t, n - 1);
    }
}

/// Equal sets of unique entries hold equal maps.
proof fn lemma_same_entries<V>(s: Seq<Entry<V>>, m: Map<Key, V>)
    requires
        unique(s),
        forall|i: int|
            0 <= i < s.len() ==> m.contains_key(key_of(#[trigger] s[i])) && m[key_of(s[i])]
                == s[i].value,
        forall|k: Key| #[trigger]
            m.contains_key(k) ==> exists|i: int| 0 <= i < s.len() && key_of(#[trigger] s[i]) == k,
    ensures
        held(s, s.len() as int) == m,
{
    lemma_held(s, s.len() as int);
    let h = held(s, s.len() as int);
    assert forall|k: Key| #[trigger] h.contains_key(k) <==> m.contains_key(k) by {
        if h.contains_key(k) {
            let i = choose|i: int| 0 <= i < s.len() && key_of(#[trigger] s[i]) == k;
        }
        if m.contains_key(k) {
            let i = choose|i: int| 0 <= i < s.len() && key_of(#[trigger] s[i]) == k;
        }
    }
    assert forall|k: Key| #[trigger] h.contains_key(k) implies h[k] == m[k] by {
        let i = choose|i: int| 0 <= i < s.len() && key_of(#[trigger] s[i]) == k;
    }
    assert(h =~= m);
}

/// A map without the keys whose first text is the given one.
pub open spec fn without_first<V>(m: Map<Key, V>, a: Seq<char>) -> Map<Key, V> {
    Map::new(|k: Key| m.contains_key(k) && k.0 != a, |k: Key| m[k])
}

fn find<V>(entries: &Vec<Entry<V>>, a: &str, b: &str) -> (r: Option<usize>)
    ensures
        match r {
            Some(i) => i < entries.len() && key_of(entries@[i as int]) == (a@, b@),
            None => forall|i: int|
                0 <= i < entries.len() ==> key_of(#[trigger] entries@[i]) != (a@, b@),
        },
{
    let first = a.to_owned();
    let second = b.to_owned();
    let mut i: usize = 0;
    while i < entries.len()
        invariant
            i <= entries.len(),
            first@ == a@,
            second@ == b@,
            forall|k: int| 0 <= k < i ==> key_of(#[trigger] entries@[k]) != (a@, b@),
        decreases entries.len() - i,
    {
        if entries[i].a == first && entries[i].b == second {
            return Some(i);
        }
        i = i + 1;
    }
    None
}

impl<V> Table<V> {
    #[verifier::type_invariant]
    spec fn well_formed(self) -> bool {
        unique(self.entries@)
    }

    /// What the table holds.
    pub closed spec fn map(self) -> Map<Key, V> {
        held(self.entries@, self.entries@.len() as int)
    }

    /// The table's keys, in its own order.
    pub closed spec fn keys(self) -> Seq<Key> {
        Seq::new(self.entries@.len(), |i: int| key_of(self.entries@[i]))
    }

    /// An empty table.
    pub fn new() -> (t: Self)
        ensures
            t.map() == Map::<Key, V>::empty(),
    {
        Table { entries: Vec::new() }
    }

    /// The value of a pair.
    pub fn get(&self, a: &str, b: &str) -> (r: Option<&V>)
        ensures
            match r {
                Some(v) => self.map().contains_key((a@, b@)) && *v == self.map()[(a@, b@)],
                None => !self.map().contains_key((a@, b@)),
            },
    {
        proof {
            use_type_invariant(self);
            lemma_held(self.entries@, self.entries@.len() as int);
        }
        match find(&self.entries, a, b) {
            Some(i) => Some(&self.entries[i].value),
            None => None,
        }
    }

    /// Sets the value of a pair.
    pub fn insert(&mut self, a: &str, b: &str, value: V)
        ensures
            final(self).map() == old(self).map().insert((a@, b@), value),
    {
        proof {
            use_type_invariant(&*self);
            lemma_held(self.entries@, self.entries@.len() as int);
        }
        let ghost before = self.entries@;
        let ghost m = self.map();
        let mut entries: Vec<Entry<V>> = Vec::new();
        std::mem::swap(&mut entries, &mut self.entries);
        match find(&entries, a, b) {
            Some(i) => {
                let ghost at = i as int;
                let entry = Entry { a: a.to_string(), b: b.to_string(), value };
                entries.set(i, entry);
                proof {
                    let after = entries@;
                    let n = m.insert((a@, b@), value);
                    assert(unique(after)) by {
                        assert forall|x: int, y: int|
                            #![trigger after[x], after[y]]
                            0 <= x < y < after.len() implies key_of(after[x]) != key_of(
                            after[y],
                        ) by {
                            assert(key_of(before[x]) != key_of(before[y]));
                        }
                    }
                    assert forall|k: Key| #[trigger] n.contains_key(k) implies exists|x: int|
                        0 <= x < after.len() && key_of(#[trigger] after[x]) == k by {
                        if k == (a@, b@) {
                            assert(key_of(after[at]) == k);
                        } else {
                            assert(m.contains_key(k));
                            let x = choose|x: int|
                                0 <= x < before.len() && key_of(#[trigger] before[x]) == k;
                            assert(key_of(after[x]) == k);
                        }
                    }
                    assert forall|x: int| 0 <= x < after.len() implies n.contains_key(
                        key_of(#[trigger] after[x]),
                    ) && n[key_of(after[x])] == after[x].value by {
                        assert(m.contains_key(key_of(before[x])));
                        if x != at {
                            assert(key_of(before[x]) != key_of(before[at]));
                        }
                    }
                    lemma_same_entries(after, n);
                }
            },
            None => {
                entries.push(Entry { a: a.to_string(), b: b.to_string(), value });
                proof {
                    let after = entries@;
                    let n = m.insert((a@, b@), value);
                    lemma_held_prefix(before, after, before.len() as int);
                    assert(held(after, after.len() as int) =~= n);
                }
            },
        }
        self.entries = entries;
    }

    /// Removes a pair's value, and says whether there was one.
    pub fn remove(&mut self, a: &str, b: &str) -> (r: bool)
        ensures
            final(self).map() == old(self).map().remove((a@, b@)),
            r == old(self).map().contains_key((a@, b@)),
    {
        proof {
            use_type_invariant(&*self);
            lemma_held(self.entries@, self.entries@.len() as int);
        }
        let ghost before = self.entries@;
        let ghost m = self.map();
        let mut entries: Vec<Entry<V>> = Vec::new();
        std::mem::swap(&mut entries, &mut self.entries);
        let found: bool;
        match find(&entries, a, b) {
            Some(i) => {
                let ghost at = i as int;
                found = true;
                entries.remove(i);
                proof {
                    let after = entries@;
                    let n = m.remove((a@, b@));
                    assert forall|x: int| 0 <= x < after.len() implies after[x] == if x < at {
                        before[x]
                    } else {
                        before[x + 1]
                    } by {}
                    assert forall|k: Key| #[trigger] n.contains_key(k) implies exists|x: int|
                        0 <= x < after.len() && key_of(#[trigger] after[x]) == k by {
                        assert(m.contains_key(k));
                        let x = choose|x: int|
                            0 <= x < before.len() && key_of(#[trigger] before[x]) == k;
                        if x < at {
                            assert(key_of(after[x]) == k);
                        } else {
                            assert(x != at);
                            assert(key_of(after[x - 1]) == k);
                        }
                    }
                    assert forall|x: int| 0 <= x < after.len() implies n.contains_key(
                        key_of(#[trigger] after[x]),
                    ) && n[key_of(after[x])] == after[x].value by {
                        let o = if x < at {
                            x
                        } else {
                            x + 1
                        };
                        assert(m.contains_key(key_of(before[o])));
                        assert(key_of(before[o]) != key_of(before[at]));
                    }
                    lemma_same_entries(after, n);
                }
            },
            None => {
                found = false;
                proof {
                    if m.contains_key((a@, b@)) {
                        let x = choose|x: int|
                            0 <= x < before.len() && key_of(#[trigger] before[x]) == (a@, b@);
                    }
                    assert(m.remove((a@, b@)) =~= m);
                }
            },
        }
        self.entries = entries;
        found
    }

    /// Removes every pair whose first text is the given one.
    pub fn remove_first(&mut self, a: &str)
        ensures
            final(self).map() == without_first(old(self).map(), a@),
    {
        proof {
            use_type_invariant(&*self);
            lemma_held(self.entries@, self.entries@.len() as int);
        }
        let ghost before = self.entries@;
        let ghost m = self.map();
        let mut entries: Vec<Entry<V>> = Vec::new();
        std::mem::swap(&mut entries, &mut self.entries);
        let first = a.to_owned();
        let mut i: usize = 0;
        while i < entries.len()
            invariant
                i <= entries.len(),
                first@ == a@,
                unique(entries@),
                forall|x: int|
                    0 <= x < entries.len() ==> m.contains_key(key_of(#[trigger] entries@[x]))
                        && m[key_of(entries@[x])] == entries@[x].value,
                forall|x: int| 0 <= x < i ==> (#[trigger] entries@[x]).a@ != a@,
                forall|k: Key| #[trigger]
                    m.contains_key(k) && k.0 != a@ ==> has_key(entries@, k),
            decreases entries.len() - i,
        {
            if entries[i].a == first {
                let ghost s = entries@;
                entries.remove(i);
                proof {
                    let t = entries@;
                    assert forall|x: int| 0 <= x < t.len() implies t[x] == if x < i {
                        s[x]
                    } else {
                        s[x + 1]
                    } by {}
                    assert forall|k: Key| #[trigger]
                        m.contains_key(k) && k.0 != a@ implies has_key(t, k) by {
                        assert(has_key(s, k));
                        let x = choose|x: int| 0 <= x < s.len() && key_of(#[trigger] s[x]) == k;
                        if x < i {
                            assert(key_of(t[x]) == k);
                        } else {
                            assert(key_of(t[x - 1]) == k);
                        }
                    }
                }
            } else {
                i = i + 1;
            }
        }
        proof {
            let n = without_first(m, a@);
            assert forall|k: Key| #[trigger] n.contains_key(k) implies exists|x: int|
                0 <= x < entries@.len() && key_of(#[trigger] entries@[x]) == k by {
                assert(m.contains_key(k) && k.0 != a@);
                assert(has_key(entries@, k));
            }
            lemma_same_entries(entries@, n);
        }
        self.entries = entries;
    }

    /// The number of pairs with a value.
    pub fn len(&self) -> (n: usize)
        ensures
            self.map().dom().finite(),
            n == self.map().dom().len(),
            n == self.keys().len(),
            forall|i: int, j: int|
                #![trigger self.keys()[i], self.keys()[j]]
                0 <= i < j < self.keys().len() ==> self.keys()[i] != self.keys()[j],
    {
        proof {
            use_type_invariant(self);
            lemma_held(self.entries@, self.entries@.len() as int);
        }
        self.entries.len()
    }

    /// The pair at a position, with its value.
    pub fn entry(&self, i: usize) -> (r: (&String, &String, &V))
        requires
            i < self.keys().len(),
        ensures
            (r.0@, r.1@) == self.keys()[i as int],
            self.map().contains_key(self.keys()[i as int]),
            *r.2 == self.map()[self.keys()[i as int]],
    {
        proof {
            use_type_invariant(self);
            lemma_held(self.entries@, self.entries@.len() as int);
        }
        let e = &self.entries[i];
        (&e.a, &e.b, &e.value)
    }
}

spec fn has_key<V>(entries: Seq<Entry<V>>, k: Key) -> bool {
    exists|x: int| 0 <= x < entries.len() && key_of(#[trigger] entries[x]) == k
}

/// Three texts, such as a domain, a branch and a commit.
pub type Triple = (Seq<char>, Seq<char>, Seq<char>);

struct Member {
    a: String,
    b: String,
    c: String,
}

/// A set of text triples.
pub struct TripleSet {
    members: Vec<Member>,
}

spec fn triple_of(m: Member) -> Triple {
    (m.a@, m.b@, m.c@)
}

spec fn triples(members: Seq<Member>) -> Seq<Triple> {
    Seq::new(members.len(), |i: int| triple_of(members[i]))
}

/// A triple begins with the given texts; an absent text matches any.
pub open spec fn begins_with(
    t: Triple,
    a: Seq<char>,
    b: Option<Seq<char>>,
    c: Option<Seq<char>>,
) -> bool {
    t.0 == a && (b is Some ==> t.1 == b->0) && (c is Some ==> t.2 == c->0)
}

/// A set without the triples that begin with the given texts.
pub open spec fn without_prefix(
    s: Set<Triple>,
    a: Seq<char>,
    b: Option<Seq<char>>,
    c: Option<Seq<char>>,
) -> Set<Triple> {
    s.filter(|t: Triple| !begins_with(t, a, b, c))
}

fn text_matches(s: &String, wanted: &Option<String>) -> (r: bool)
    ensures
        r == (wanted is Some ==> s@ == wanted->0@),
{
    match wanted {
        Some(w) => *s == *w,
        None => true,
    }
}

spec fn wanted_text(s: Option<String>) -> Option<Seq<char>> {
    match s {
        Some(t) => Some(t@),
        None => None,
    }
}

fn drop_members(members: Vec<Member>, a: String, b: Option<String>, c: Option<String>) -> (r: Vec<
    Member,
>)
    requires
        triples(members@).no_duplicates(),
    ensures
        triples(r@).no_duplicates(),
        forall|t: Triple| #[trigger]
            triples(r@).contains(t) <==> triples(members@).contains(t) && !begins_with(
                t,
                a@,
                wanted_text(b),
                wanted_text(c),
            ),
{
    let ghost all = triples(members@);
    let mut members = members;
    let mut i: usize = 0;
    while i < members.len()
        invariant
            i <= members.len(),
            triples(members@).no_duplicates(),
            forall|t: Triple| #[trigger] triples(members@).contains(t) ==> all.contains(t),
            forall|t: Triple| #[trigger]
                all.contains(t) && !begins_with(t, a@, wanted_text(b), wanted_text(c))
                    ==> triples(members@).contains(t),
            forall|k: int|
                0 <= k < i ==> !begins_with(
                    #[trigger] triples(members@)[k],
                    a@,
                    wanted_text(b),
                    wanted_text(c),
                ),
        decreases members.len() - i,
    {
        let m = &members[i];
        let goes = m.a == a && text_matches(&m.b, &b) && text_matches(&m.c, &c);
        let ghost s = triples(members@);
        assert(s[i as int] == triple_of(members@[i as int]));
        assert(goes == begins_with(s[i as int], a@, wanted_text(b), wanted_text(c)));
        if goes {
            members.remove(i);
            proof {
                let t = triples(members@);
                assert(t =~= s.remove(i as int));
                assert forall|x: Triple| #[trigger] t.contains(x) implies all.contains(x) by {
                    let k = choose|k: int| 0 <= k < t.len() && t[k] == x;
                    let o = if k < i {
                        k
                    } else {
                        k + 1
                    };
                    assert(s[o] == x);
                    assert(s.contains(x));
                }
                assert forall|x: Triple| #[trigger]
                    all.contains(x) && !begins_with(
                        x,
                        a@,
                        wanted_text(b),
                        wanted_text(c),
                    ) implies t.contains(x) by {
                    assert(s.contains(x));
                    let k = choose|k: int| 0 <= k < s.len() && s[k] == x;
                    if k < i {
                        assert(t[k] == x);
                    } else {
                        assert(t[k - 1] == x);
                    }
                }
                assert forall|x: int, y: int|
                    0 <= x < t.len() && 0 <= y < t.len() && x != y implies t[x] != t[y] by {
                    let o = if x < i {
                        x
                    } else {
                        x + 1
                    };
                    let q = if y < i {
                        y
                    } else {
                        y + 1
                    };
                    assert(s[o] != s[q]);
                }
                assert forall|k: int| 0 <= k < i implies !begins_with(
                    #[trigger] t[k],
                    a@,
                    wanted_text(b),
                    wanted_text(c),
                ) by {
                    assert(t[k] == s[k]);
                }
            }
        } else {
            i = i + 1;
        }
    }
    members
}

impl TripleSet {
    #[verifier::type_invariant]
    spec fn well_formed(self) -> bool {
        triples(self.members@).no_duplicates()
    }

    /// What the set holds.
    pub closed spec fn set(self) -> Set<Triple> {
        triples(self.members@).to_set()
    }

    /// An empty set.
    pub fn new() -> (t: Self)
        ensures
            t.set() == Set::<Triple>::empty(),
    {
        let t = TripleSet { members: Vec::new() };
        assert(t.set() =~= Set::<Triple>::empty());
        t
    }

    /// Whether the set holds a triple.
    pub fn contains(&self, a: &str, b: &str, c: &str) -> (r: bool)
        ensures
            r == self.set().contains((a@, b@, c@)),
    {
        let first = a.to_owned();
        let second = b.to_owned();
        let third = c.to_owned();
        let mut i: usize = 0;
        while i < self.members.len()
            invariant
                i <= self.members.len(),
                first@ == a@,
                second@ == b@,
                third@ == c@,
                forall|k: int|
                    0 <= k < i ==> #[trigger] triples(self.members@)[k] != (a@, b@, c@),
            decreases self.members.len() - i,
        {
            let m = &self.members[i];
            assert(triples(self.members@)[i as int] == triple_of(self.members@[i as int]));
            if m.a == first && m.b == second && m.c == third {
                assert(triples(self.members@).contains((a@, b@, c@)));
                return true;
            }
            i = i + 1;
        }
        false
    }

    /// Adds a triple.
    pub fn insert(&mut self, a: &str, b: &str, c: &str)
        ensures
            final(self).set() == old(self).set().insert((a@, b@, c@)),
    {
        proof {
            use_type_invariant(&*self);
        }
        if self.contains(a, b, c) {
            assert(self.set().insert((a@, b@, c@)) =~= self.set());
            return ;
        }
        let ghost s = triples(self.members@);
        let mut members: Vec<Member> = Vec::new();
        std::mem::swap(&mut members, &mut self.members);
        members.push(Member { a: a.to_owned(), b: b.to_owned(), c: c.to_owned() });
        proof {
            let t = triples(members@);
            assert(t =~= s.push((a@, b@, c@)));
            assert(t.no_duplicates()) by {
                assert forall|x: int, y: int|
                    0 <= x < t.len() && 0 <= y < t.len() && x != y implies t[x] != t[y] by {
                    if x < s.len() && y < s.len() {
                        assert(s[x] != s[y]);
                    } else if x < s.len() {
                        assert(s.contains(s[x]));
                    } else {
                        assert(s.contains(s[y]));
                    }
                }
            }
            assert(t.to_set() =~= s.to_set().insert((a@, b@, c@))) by {
                assert forall|x: Triple| t.to_set().contains(x) <==> s.to_set().insert(
                    (a@, b@, c@),
                ).contains(x) by {
                    if s.contains(x) {
                        let k = choose|k: int| 0 <= k < s.len() && s[k] == x;
                        assert(t[k] == x);
                    }
                    if x == (a@, b@, c@) {
                        assert(t[s.len() as int] == x);
                    }
                    if t.contains(x) && x != (a@, b@, c@) {
                        let k = choose|k: int| 0 <= k < t.len() && t[k] == x;
                        assert(s[k] == x);
                    }
                }
            }
        }
        self.members = members;
    }

    fn drop_matching(&mut self, a: String, b: Option<String>, c: Option<String>)
        ensures
            final(self).set() == without_prefix(
                old(self).set(),
                a@,
                wanted_text(b),
                wanted_text(c),
            ),
    {
        proof {
            use_type_invariant(&*self);
        }
        let ghost s = triples(self.members@);
        let ghost want = (a@, wanted_text(b), wanted_text(c));
        let mut members: Vec<Member> = Vec::new();
        std::mem::swap(&mut members, &mut self.members);
        let kept = drop_members(members, a, b, c);
        assert(triples(kept@).to_set() =~= without_prefix(s.to_set(), want.0, want.1, want.2)) by {
            assert forall|x: Triple| triples(kept@).to_set().contains(x) <==> without_prefix(
                s.to_set(),
                want.0,
                want.1,
                want.2,
            ).contains(x) by {
                assert(triples(kept@).contains(x) <==> s.contains(x) && !begins_with(
                    x,
                    want.0,
                    want.1,
                    want.2,
                ));
            }
        }
        self.members = kept;
    }

    /// Removes a triple.
    pub fn remove(&mut self, a: &str, b: &str, c: &str)
        ensures
            final(self).set() == old(self).set().remove((a@, b@, c@)),
    {
        let ghost s = self.set();
        self.drop_matching(a.to_owned(), Some(b.to_owned()), Some(c.to_owned()));
        assert(self.set() =~= s.remove((a@, b@, c@)));
    }

    /// Removes every triple that begins with one text.
    pub fn remove_first(&mut self, a: &str)
        ensures
            final(self).set() == without_prefix(old(self).set(), a@, None, None),
    {
        self.drop_matching(a.to_owned(), None, None);
    }

    /// Removes every triple that begins with two texts.
    pub fn remove_pair(&mut self, a: &str, b: &str)
        ensures
            final(self).set() == without_prefix(old(self).set(), a@, Some(b@), None),
    {
        self.drop_matching(a.to_owned(), Some(b.to_owned()), None);
    }

    /// The number of triples.
    pub fn len(&self) -> (n: usize)
        ensures
            n == self.set().len(),
    {
        proof {
            use_type_invariant(self);
            triples(self.members@).unique_seq_to_set();
        }
        self.members.len()
    }
}


/// A key stays with its value unless it begins with the text.
pub proof fn only_keys_of_the_text_go<V>(m: Map<Key, V>, a: Seq<char>, k: Key)
    ensures
        without_first(m, a).contains_key(k) <==> m.contains_key(k) && k.0 != a,
        m.contains_key(k) && k.0 != a ==> without_first(m, a)[k] == m[k],
{
}

/// A triple goes with its first text, with its first two, or alone, as many as are given.
pub proof fn only_triples_of_the_texts_go(
    s: Set<Triple>,
    a: Seq<char>,
    b: Seq<char>,
    c: Seq<char>,
    t: Triple,
)
    ensures
        without_prefix(s, a, None, None).contains(t) <==> s.contains(t) && t.0 != a,
        without_prefix(s, a, Some(b), None).contains(t) <==> s.contains(t) && !(t.0 == a && t.1
            == b),
        without_prefix(s, a, Some(b), Some(c)).contains(t) <==> s.contains(t) && t != (a, b, c),
{
}

} // verus!
