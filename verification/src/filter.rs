//! Row filters: typed filter trees, and their SQL text form.

use crate::schema::DuplicateScope;
use crate::text;
use vstd::prelude::*;
use vstd::string::*;

verus! {

/// Appends a character to a string (`String::push`).
pub assume_specification[ String::push ](s: &mut String, c: char)
    ensures
        final(s)@ == old(s)@.push(c),
;

/// A filter on the document columns of a row.
#[derive(Debug)]
pub enum Filter {
    /// The document type is one of the list.
    DocTypeIn(Vec<String>),
    /// The document id is one of the list.
    DocIdIn(Vec<String>),
    /// The document id is the given one.
    DocIdIs(String),
    /// The document id differs from the given one.
    DocIdIsNot(String),
    /// Both filters accept.
    Both(Box<Filter>, Box<Filter>),
}

/// Whether a list of strings holds a text.
pub open spec fn lists(list: Seq<String>, s: Seq<char>) -> bool {
    exists|i: int| 0 <= i < list.len() && (#[trigger] list[i])@ == s
}

impl Filter {
    /// Whether a row with the given document type and id passes.
    pub open spec fn accepts(&self, doc_type: Seq<char>, doc_id: Seq<char>) -> bool
        decreases self,
    {
        match self {
            Filter::DocTypeIn(list) => lists(list@, doc_type),
            Filter::DocIdIn(list) => lists(list@, doc_id),
            Filter::DocIdIs(id) => id@ == doc_id,
            Filter::DocIdIsNot(id) => id@ != doc_id,
            Filter::Both(a, b) => a.accepts(doc_type, doc_id) && b.accepts(doc_type, doc_id),
        }
    }
}

/// A row passes the type and id lists; an empty list does not restrict.
pub open spec fn passes_lists(
    doc_types: Seq<String>,
    doc_ids: Seq<String>,
    doc_type: Seq<char>,
    doc_id: Seq<char>,
) -> bool {
    (doc_types.len() == 0 || lists(doc_types, doc_type)) && (doc_ids.len() == 0 || lists(
        doc_ids,
        doc_id,
    ))
}

/// A copy of a list of strings.
pub fn copy_strings(list: &Vec<String>) -> (r: Vec<String>)
    ensures
        r@ == list@,
{
    let mut out: Vec<String> = Vec::new();
    let mut i: usize = 0;
    while i < list.len()
        invariant
            i <= list.len(),
            out@ == list@.take(i as int),
        decreases list.len() - i,
    {
        out.push(list[i].clone());
        i = i + 1;
        assert(list@.take(i as int) =~= list@.take(i - 1).push(list@[i - 1]));
    }
    assert(list@.take(i as int) =~= list@);
    out
}

/// The filter for document type and id lists; `None` when both are empty.
pub fn build_filter_expr(doc_types: &Vec<String>, doc_ids: &Vec<String>) -> (r: Option<Filter>)
    ensures
        r is None <==> doc_types@.len() == 0 && doc_ids@.len() == 0,
        r matches Some(f) ==> forall|t: Seq<char>, d: Seq<char>| #[trigger]
            f.accepts(t, d) == passes_lists(doc_types@, doc_ids@, t, d),
{
    if doc_types.is_empty() {
        if doc_ids.is_empty() {
            None
        } else {
            Some(Filter::DocIdIn(copy_strings(doc_ids)))
        }
    } else {
        let types = Filter::DocTypeIn(copy_strings(doc_types));
        if doc_ids.is_empty() {
            Some(types)
        } else {
            let ids = Filter::DocIdIn(copy_strings(doc_ids));
            proof {
                reveal_with_fuel(Filter::accepts, 2);
            }
            Some(Filter::Both(Box::new(types), Box::new(ids)))
        }
    }
}

/// The filter for a single document id.
pub fn doc_id_eq_expr(doc_id: &str) -> (r: Filter)
    ensures
        forall|t: Seq<char>, d: Seq<char>| #[trigger] r.accepts(t, d) == (d == doc_id@),
        forall|t: Seq<char>| #[trigger] r.accepts(t, doc_id@),
{
    Filter::DocIdIs(doc_id.to_owned())
}

/// A row belongs to the population that neighbours come from: the target where one is configured,
/// else the set itself.
pub open spec fn among_neighbours(
    scope: DuplicateScope,
    doc_type: Seq<char>,
    doc_id: Seq<char>,
) -> bool {
    if scope.targets() {
        passes_lists(scope.target_doc_types@, scope.target_doc_ids@, doc_type, doc_id)
    } else {
        passes_lists(scope.set_doc_types@, scope.set_doc_ids@, doc_type, doc_id)
    }
}

/// The filter of a point's neighbour query: never the point's own document, and only the target
/// population where one is configured, else only the set.
pub fn build_neighbour_filter(self_doc_id: &str, scope: &DuplicateScope) -> (r: Filter)
    ensures
        forall|t: Seq<char>, d: Seq<char>| #[trigger]
            r.accepts(t, d) == (d != self_doc_id@ && among_neighbours(*scope, t, d)),
        forall|t: Seq<char>| !#[trigger] r.accepts(t, self_doc_id@),
{
    let other = Filter::DocIdIsNot(self_doc_id.to_owned());
    let population = if scope.has_target() {
        build_filter_expr(&scope.target_doc_types, &scope.target_doc_ids)
    } else {
        build_filter_expr(&scope.set_doc_types, &scope.set_doc_ids)
    };
    match population {
        None => other,
        Some(members) => {
            let ghost a = other;
            let ghost b = members;
            let both = Filter::Both(Box::new(other), Box::new(members));
            proof {
                assert forall|t: Seq<char>, d: Seq<char>| #[trigger] both.accepts(t, d) == (d
                    != self_doc_id@ && among_neighbours(*scope, t, d)) by {
                    assert(both.accepts(t, d) == (a.accepts(t, d) && b.accepts(t, d)));
                }
            }
            both
        },
    }
}

/// The filter of a probe among candidate documents: one of the candidates, and not the probe's own
/// document.
pub fn build_candidate_filter(candidates: &Vec<String>, self_doc_id: &str) -> (r: Filter)
    ensures
        forall|t: Seq<char>, d: Seq<char>| #[trigger]
            r.accepts(t, d) == (lists(candidates@, d) && d != self_doc_id@),
        forall|t: Seq<char>| !#[trigger] r.accepts(t, self_doc_id@),
{
    proof {
        reveal_with_fuel(Filter::accepts, 2);
    }
    Filter::Both(
        Box::new(Filter::DocIdIn(copy_strings(candidates))),
        Box::new(Filter::DocIdIsNot(self_doc_id.to_owned())),
    )
}

/// A text with every quote doubled.
pub open spec fn escaped(s: Seq<char>) -> Seq<char>
    decreases s.len(),
{
    if s.len() == 0 {
        Seq::empty()
    } else if s.last() == '\'' {
        escaped(s.drop_last()).push('\'').push('\'')
    } else {
        escaped(s.drop_last()).push(s.last())
    }
}

/// A quoted SQL string literal.
pub open spec fn quoted(s: Seq<char>) -> Seq<char> {
    seq!['\''] + escaped(s) + seq!['\'']
}

/// The first `n` strings of a list as SQL literals, separated by a comma and a space.
pub open spec fn literal_list(list: Seq<String>, n: int) -> Seq<char>
    decreases n,
{
    if n <= 0 {
        Seq::empty()
    } else if n == 1 {
        quoted(list[0]@)
    } else {
        literal_list(list, n - 1) + seq![',', ' '] + quoted(list[n - 1]@)
    }
}

/// `column IN (...)`.
pub open spec fn in_clause(column: Seq<char>, list: Seq<String>) -> Seq<char> {
    column + " IN ("@ + literal_list(list, list.len() as int) + ")"@
}

fn push_quoted(out: &mut String, s: &str)
    ensures
        final(out)@ == old(out)@ + quoted(s@),
{
    let chars = text::chars_of(s);
    out.push('\'');
    let mut i: usize = 0;
    assert(out@ =~= old(out)@ + seq!['\''] + escaped(s@.take(0)));
    while i < chars.len()
        invariant
            i <= chars.len(),
            chars@ == s@,
            out@ == old(out)@ + seq!['\''] + escaped(s@.take(i as int)),
        decreases chars.len() - i,
    {
        let ghost before = out@;
        let c = chars[i];
        if c == '\'' {
            out.push(c);
        }
        out.push(c);
        i = i + 1;
        proof {
            assert(s@.take(i as int).drop_last() =~= s@.take(i - 1));
            assert(s@.take(i as int).last() == c);
            assert(out@ =~= old(out)@ + seq!['\''] + escaped(s@.take(i as int)));
        }
    }
    assert(s@.take(i as int) =~= s@);
    out.push('\'');
    assert(out@ =~= old(out)@ + quoted(s@));
}

fn push_in_clause(out: &mut String, column: &str, list: &Vec<String>)
    requires
        list.len() > 0,
    ensures
        final(out)@ == old(out)@ + in_clause(column@, list@),
{
    proof {
        reveal_strlit(", ");
    }
    out.append(column);
    out.append(" IN (");
    let ghost head = out@;
    push_quoted(out, list[0].as_str());
    let mut i: usize = 1;
    while i < list.len()
        invariant
            1 <= i <= list.len(),
            out@ == head + literal_list(list@, i as int),
        decreases list.len() - i,
    {
        proof {
            reveal_strlit(", ");
        }
        out.append(", ");
        push_quoted(out, list[i].as_str());
        i = i + 1;
        proof {
            assert(", "@ =~= seq![',', ' ']);
            assert(out@ =~= head + literal_list(list@, i as int));
        }
    }
    out.append(")");
    assert(out@ =~= old(out)@ + in_clause(column@, list@));
}

/// The SQL form of the type and id lists.
pub open spec fn filter_text(doc_types: Seq<String>, doc_ids: Seq<String>) -> Seq<char> {
    if doc_types.len() > 0 && doc_ids.len() > 0 {
        in_clause("doc_type"@, doc_types) + " AND "@ + in_clause("doc_id"@, doc_ids)
    } else if doc_types.len() > 0 {
        in_clause("doc_type"@, doc_types)
    } else if doc_ids.len() > 0 {
        in_clause("doc_id"@, doc_ids)
    } else {
        Seq::empty()
    }
}

/// The SQL filter for document type and id lists; empty when both are.
pub fn build_filter_expression(doc_types: &Vec<String>, doc_ids: &Vec<String>) -> (r: String)
    ensures
        r@ == filter_text(doc_types@, doc_ids@),
{
    let mut out = String::new();
    if !doc_types.is_empty() {
        push_in_clause(&mut out, "doc_type", doc_types);
        assert(out@ =~= in_clause("doc_type"@, doc_types@));
    }
    if !doc_ids.is_empty() {
        if !doc_types.is_empty() {
            out.append(" AND ");
        }
        push_in_clause(&mut out, "doc_id", doc_ids);
    }
    assert(out@ =~= filter_text(doc_types@, doc_ids@));
    out
}

/// The SQL text of a comparison with a document id.
pub open spec fn equals_text(doc_id: Seq<char>) -> Seq<char> {
    "doc_id = "@ + quoted(doc_id)
}

/// The SQL filter for a single document id.
pub fn doc_id_equals(doc_id: &str) -> (r: String)
    ensures
        r@ == equals_text(doc_id@),
{
    let mut out = "doc_id = ".to_owned();
    push_quoted(&mut out, doc_id);
    out
}

/// Undoes [`escaped`]: every doubled quote stands for one.
pub open spec fn unescaped(s: Seq<char>) -> Seq<char>
    decreases s.len(),
{
    if s.len() == 0 {
        Seq::empty()
    } else if s.last() == '\'' && s.len() >= 2 && s[s.len() - 2] == '\'' {
        unescaped(s.take(s.len() - 2)).push('\'')
    } else {
        unescaped(s.drop_last()).push(s.last())
    }
}

/// A literal reads back as the text it was made from.
pub proof fn literals_read_back(s: Seq<char>)
    ensures
        unescaped(escaped(s)) == s,
    decreases s.len(),
{
    if s.len() > 0 {
        literals_read_back(s.drop_last());
        let e = escaped(s);
        if s.last() == '\'' {
            assert(e.take(e.len() - 2) =~= escaped(s.drop_last()));
        } else {
            assert(e.drop_last() =~= escaped(s.drop_last()));
        }
        assert(s =~= s.drop_last().push(s.last()));
    }
}

/// A filter means what it names: a type list is about the type, an id list and an id about the id,
/// and both together restrict to what each accepts.
pub proof fn filters_mean_what_they_name(
    list: Vec<String>,
    id: String,
    a: Filter,
    b: Filter,
    doc_type: Seq<char>,
    doc_id: Seq<char>,
)
    ensures
        Filter::DocTypeIn(list).accepts(doc_type, doc_id) <==> exists|i: int|
            0 <= i < list@.len() && (#[trigger] list@[i])@ == doc_type,
        Filter::DocIdIn(list).accepts(doc_type, doc_id) <==> exists|i: int|
            0 <= i < list@.len() && (#[trigger] list@[i])@ == doc_id,
        Filter::DocIdIs(id).accepts(doc_type, doc_id) <==> doc_id == id@,
        Filter::DocIdIsNot(id).accepts(doc_type, doc_id) <==> doc_id != id@,
        Filter::Both(Box::new(a), Box::new(b)).accepts(doc_type, doc_id) <==> a.accepts(
            doc_type,
            doc_id,
        ) && b.accepts(doc_type, doc_id),
{
}

/// The type list restricts types and the id list ids, each by itself and both together; an empty
/// list restricts nothing.
pub proof fn lists_restrict_their_own_column(
    doc_types: Seq<String>,
    doc_ids: Seq<String>,
    doc_type: Seq<char>,
    doc_id: Seq<char>,
)
    ensures
        passes_lists(Seq::empty(), Seq::empty(), doc_type, doc_id),
        passes_lists(doc_types, doc_ids, doc_type, doc_id) <==> passes_lists(
            doc_types,
            Seq::empty(),
            doc_type,
            doc_id,
        ) && passes_lists(Seq::empty(), doc_ids, doc_type, doc_id),
        doc_types.len() > 0 ==> (passes_lists(doc_types, Seq::empty(), doc_type, doc_id)
            <==> exists|i: int| 0 <= i < doc_types.len() && (#[trigger] doc_types[i])@ == doc_type),
        doc_ids.len() > 0 ==> (passes_lists(Seq::empty(), doc_ids, doc_type, doc_id) <==> exists|
            i: int,
        |
            0 <= i < doc_ids.len() && (#[trigger] doc_ids[i])@ == doc_id),
{
}

/// Neighbours come from the target where there is one, whatever the set is; else from the set.
pub proof fn neighbours_come_from_the_target(
    scope: DuplicateScope,
    doc_type: Seq<char>,
    doc_id: Seq<char>,
)
    ensures
        scope.target_doc_types@.len() > 0 || scope.target_doc_ids@.len() > 0 ==> (among_neighbours(
            scope,
            doc_type,
            doc_id,
        ) <==> passes_lists(scope.target_doc_types@, scope.target_doc_ids@, doc_type, doc_id)),
        scope.target_doc_types@.len() == 0 && scope.target_doc_ids@.len() == 0 ==> (
        among_neighbours(scope, doc_type, doc_id) <==> passes_lists(
            scope.set_doc_types@,
            scope.set_doc_ids@,
            doc_type,
            doc_id,
        )),
{
}

/// A quoted literal begins and ends with a quote, and what stands between reads back as the text; so
/// different texts have different literals.
pub proof fn literals_tell_texts_apart(s: Seq<char>, t: Seq<char>)
    ensures
        quoted(s).len() >= 2,
        quoted(s)[0] == '\'' && quoted(s).last() == '\'',
        unescaped(quoted(s).subrange(1, quoted(s).len() - 1)) == s,
        quoted(s) == quoted(t) ==> s == t,
        equals_text(s) == equals_text(t) ==> s == t,
{
    literals_read_back(s);
    literals_read_back(t);
    assert(quoted(s).subrange(1, quoted(s).len() - 1) =~= escaped(s));
    assert(quoted(t).subrange(1, quoted(t).len() - 1) =~= escaped(t));
    let n = "doc_id = "@.len() as int;
    assert(equals_text(s).skip(n) =~= quoted(s));
    assert(equals_text(t).skip(n) =~= quoted(t));
}

/// Within a literal quotes come in pairs: a lone one never ends it early. Each character of the text
/// stands in the literal as itself, a quote as two.
pub proof fn literals_grow_by_characters(s: Seq<char>, c: char)
    ensures
        escaped(Seq::<char>::empty()) == Seq::<char>::empty(),
        c == '\'' ==> escaped(s.push(c)) == escaped(s) + seq!['\'', '\''],
        c != '\'' ==> escaped(s.push(c)) == escaped(s) + seq![c],
{
    assert(s.push(c).drop_last() =~= s);
    if c == '\'' {
        assert(escaped(s.push(c)) =~= escaped(s) + seq!['\'', '\'']);
    } else {
        assert(escaped(s.push(c)) =~= escaped(s) + seq![c]);
    }
}


/// A filter on types and ids is the one on the types and the one on the ids, both to be met.
pub proof fn filters_are_met_together(doc_types: Seq<String>, doc_ids: Seq<String>)
    requires
        doc_types.len() > 0,
        doc_ids.len() > 0,
    ensures
        filter_text(doc_types, doc_ids) == filter_text(doc_types, Seq::empty()) + " AND "@
            + filter_text(Seq::empty(), doc_ids),
        filter_text(Seq::empty(), Seq::empty()).len() == 0,
        filter_text(doc_types, Seq::empty()).take(8) == "doc_type"@,
        filter_text(Seq::empty(), doc_ids).take(6) == "doc_id"@,
{
    reveal_strlit("doc_type");
    reveal_strlit("doc_id");
    assert(filter_text(doc_types, Seq::empty()).take(8) =~= "doc_type"@);
    assert(filter_text(Seq::empty(), doc_ids).take(6) =~= "doc_id"@);
}

/// Another text in a list is another literal behind a comma; nothing in front of it changes.
pub proof fn lists_grow_by_literals(column: Seq<char>, list: Seq<String>, s: String)
    requires
        list.len() > 0,
    ensures
        in_clause(column, list.push(s)) == in_clause(column, list).drop_last() + seq![',', ' ']
            + quoted(s@) + seq![')'],
        in_clause(column, seq![s]) == column + " IN ("@ + quoted(s@) + ")"@,
{
    reveal_strlit(")");
    let n = list.len() as int;
    lemma_literal_prefix(list, list.push(s), n);
    assert(")"@ =~= seq![')']);
    assert(list.push(s)[n] == s);
    assert(in_clause(column, list).drop_last() =~= column + " IN ("@ + literal_list(list, n));
    assert(in_clause(column, list.push(s)) =~= in_clause(column, list).drop_last() + seq![',', ' ']
        + quoted(s@) + seq![')']);
}

proof fn lemma_literal_prefix(a: Seq<String>, b: Seq<String>, n: int)
    requires
        0 <= n <= a.len(),
        n <= b.len(),
        forall|i: int| 0 <= i < n ==> a[i] == b[i],
    ensures
        literal_list(a, n) == literal_list(b, n),
    decreases n,
{
    if n > 0 {
        lemma_literal_prefix(a, b, n - 1);
    }
}

} // verus!
