//! Traceability tables: from section identifiers to the identifiers they
//! trace to, and back.

use crate::source_model::section::{metadata_view, MarkdownSection};
use crate::source_model::section_metadata::{SectionMetadata, SectionMetadataView};
use crate::text::{
    codes, join, join_strings, lemma_codes_injective, lemma_lex_asymmetric, lemma_lex_irreflexive,
    lemma_lex_total, lemma_lex_transitive, text_equal, text_less, text_lt, texts,
};
use crate::unified_document::UnifiedDocument;
use vstd::prelude::*;
use vstd::seq_lib::to_multiset_contains;

verus! {

/// The records of a list by their views.
pub open spec fn entry_views(entries: Seq<SectionMetadata>) -> Seq<SectionMetadataView> {
    entries.map_values(|e: SectionMetadata| e@)
}

/// The entry at `k` carries the identifier `id`.
pub open spec fn names_at(entries: Seq<SectionMetadataView>, k: int, id: Seq<char>) -> bool {
    0 <= k < entries.len() && entries[k].section_id == Some(id)
}

/// The entry at `k` carries the identifier `id` and traces to `traced`.
pub open spec fn cites_at(entries: Seq<SectionMetadataView>, k: int, id: Seq<char>, traced: Seq<char>) -> bool {
    &&& names_at(entries, k, id)
    &&& entries[k].traced_ids is Some
    &&& entries[k].traced_ids.unwrap().contains(traced)
}

/// The entry at `k` carries an identifier and traces to `traced`.
pub open spec fn cited_at(entries: Seq<SectionMetadataView>, k: int, traced: Seq<char>) -> bool {
    &&& 0 <= k < entries.len()
    &&& entries[k].section_id is Some
    &&& entries[k].traced_ids is Some
    &&& entries[k].traced_ids.unwrap().contains(traced)
}

/// One of the first `n` entries carries the identifier `id`.
pub open spec fn names_within(entries: Seq<SectionMetadataView>, n: int, id: Seq<char>) -> bool {
    exists|k: int| k < n && #[trigger] names_at(entries, k, id)
}

/// One of the first `n` entries carries `id` and traces to `traced`.
pub open spec fn cites_within(
    entries: Seq<SectionMetadataView>,
    n: int,
    id: Seq<char>,
    traced: Seq<char>,
) -> bool {
    exists|k: int| k < n && #[trigger] cites_at(entries, k, id, traced)
}

/// One of the first `n` entries carries an identifier and traces to `traced`.
pub open spec fn cited_within(entries: Seq<SectionMetadataView>, n: int, traced: Seq<char>) -> bool {
    exists|k: int| k < n && #[trigger] cited_at(entries, k, traced)
}

/// The section identifiers that occur in the document.
pub open spec fn section_ids(entries: Seq<SectionMetadataView>) -> Set<Seq<char>> {
    Set::new(|id: Seq<char>| names_within(entries, entries.len() as int, id))
}

/// The identifiers that sections with the identifier `id` trace to.
pub open spec fn traced_by(entries: Seq<SectionMetadataView>, id: Seq<char>) -> Set<Seq<char>> {
    Set::new(|traced: Seq<char>| cites_within(entries, entries.len() as int, id, traced))
}

/// The identifiers that identified sections trace to.
pub open spec fn traced_ids(entries: Seq<SectionMetadataView>) -> Set<Seq<char>> {
    Set::new(|traced: Seq<char>| cited_within(entries, entries.len() as int, traced))
}

/// The identifiers of the sections that trace to `traced`.
pub open spec fn citing(entries: Seq<SectionMetadataView>, traced: Seq<char>) -> Set<Seq<char>> {
    Set::new(|id: Seq<char>| cites_within(entries, entries.len() as int, id, traced))
}

/// Whether every text of the list comes lexically before those after it.
pub open spec fn strictly_ascending(list: Seq<Seq<char>>) -> bool {
    forall|i: int, j: int| 0 <= i < j < list.len() ==> text_lt(#[trigger] list[i], #[trigger] list[j])
}

/// Whether `list` holds the members of `set`, each once, in lexical order.
pub open spec fn lists(list: Seq<Seq<char>>, set: Set<Seq<char>>) -> bool {
    strictly_ascending(list) && forall|x: Seq<char>|
        #![trigger list.contains(x)]
        #![trigger set.contains(x)]
        list.contains(x) <==> set.contains(x)
}

/// The members of a finite set of texts in lexical order.
pub open spec fn ascending_list(set: Set<Seq<char>>) -> Seq<Seq<char>> {
    choose|list: Seq<Seq<char>>| lists(list, set)
}

/// One row of a traceability table.
#[derive(Debug, PartialEq, Eq)]
pub struct TraceabilityRow {
    /// The identifier that the row is about.
    pub key: String,
    /// The identifiers related to it: distinct, in lexical order, joined by
    /// commas.
    pub values: String,
}

/// A row by its characters.
pub struct TraceabilityRowView {
    pub key: Seq<char>,
    pub values: Seq<char>,
}

impl View for TraceabilityRow {
    type V = TraceabilityRowView;

    open spec fn view(&self) -> TraceabilityRowView {
        TraceabilityRowView { key: self.key@, values: self.values@ }
    }
}

/// The rows of a list by their views.
pub open spec fn row_views(rows: Seq<TraceabilityRow>) -> Seq<TraceabilityRowView> {
    rows.map_values(|r: TraceabilityRow| r@)
}

/// The table from section identifiers to traced identifiers: one row for
/// each section identifier of the document, in lexical order; the row holds
/// the identifiers that sections with this identifier trace to.
pub open spec fn forward_table(entries: Seq<SectionMetadataView>) -> Seq<TraceabilityRowView> {
    let keys = ascending_list(section_ids(entries));
    Seq::new(
        keys.len(),
        |i: int|
            TraceabilityRowView {
                key: keys[i],
                values: join(ascending_list(traced_by(entries, keys[i])), ","@),
            },
    )
}

/// The table from traced identifiers to section identifiers: one row for
/// each identifier that an identified section traces to, in lexical order;
/// the row holds the identifiers of all sections that trace to it.
pub open spec fn reverse_table(entries: Seq<SectionMetadataView>) -> Seq<TraceabilityRowView> {
    let keys = ascending_list(traced_ids(entries));
    Seq::new(
        keys.len(),
        |i: int|
            TraceabilityRowView {
                key: keys[i],
                values: join(ascending_list(citing(entries, keys[i])), ","@),
            },
    )
}

/// Whether the lists that the table from section identifiers is made of are
/// there: the section identifiers in lexical order, and for each of them what
/// it traces to in lexical order. Where this holds, the keys of
/// `forward_table` are strictly ascending and are exactly the section
/// identifiers, and the same holds of what each row joins.
pub open spec fn forward_listed(entries: Seq<SectionMetadataView>) -> bool {
    &&& lists(ascending_list(section_ids(entries)), section_ids(entries))
    &&& forall|id: Seq<char>| #[trigger]
        section_ids(entries).contains(id) ==> lists(
            ascending_list(traced_by(entries, id)),
            traced_by(entries, id),
        )
}

/// Whether the lists that the table from traced identifiers is made of are
/// there: the traced identifiers in lexical order, and for each of them the
/// identifiers of the sections that trace to it in lexical order.
pub open spec fn reverse_listed(entries: Seq<SectionMetadataView>) -> bool {
    &&& lists(ascending_list(traced_ids(entries)), traced_ids(entries))
    &&& forall|traced: Seq<char>| #[trigger]
        traced_ids(entries).contains(traced) ==> lists(
            ascending_list(citing(entries, traced)),
            citing(entries, traced),
        )
}

/// No text comes before itself, and two texts never come before each other.
pub proof fn lemma_text_order_strict(a: Seq<char>, b: Seq<char>)
    ensures
        !text_lt(a, a),
        text_lt(a, b) ==> !text_lt(b, a),
{
    lemma_lex_irreflexive(codes(a));
    if text_lt(a, b) {
        lemma_lex_asymmetric(codes(a), codes(b));
    }
}

/// The lexical order is transitive.
pub proof fn lemma_text_order_transitive(a: Seq<char>, b: Seq<char>, c: Seq<char>)
    requires
        text_lt(a, b),
        text_lt(b, c),
    ensures
        text_lt(a, c),
{
    lemma_lex_transitive(codes(a), codes(b), codes(c));
}

/// Two different texts are ordered one way or the other.
pub proof fn lemma_text_order_total(a: Seq<char>, b: Seq<char>)
    ensures
        a == b || text_lt(a, b) || text_lt(b, a),
{
    lemma_lex_total(codes(a), codes(b));
    if codes(a) == codes(b) {
        lemma_codes_injective(a, b);
    }
}

/// Two lists in strict lexical order with the same members are the same
/// list.
pub proof fn lemma_ascending_unique(a: Seq<Seq<char>>, b: Seq<Seq<char>>)
    requires
        strictly_ascending(a),
        strictly_ascending(b),
        forall|x: Seq<char>| a.contains(x) <==> b.contains(x),
    ensures
        a == b,
    decreases a.len(),
{
    if a.len() == 0 {
        if b.len() > 0 {
            assert(b.contains(b[0]));
            assert(a.contains(b[0]));
        }
        assert(a =~= b);
    } else {
        let top = a.last();
        assert(a[a.len() - 1] == top);
        assert(a.contains(top));
        assert(b.contains(top));
        let j = choose|j: int| 0 <= j < b.len() && b[j] == top;
        if j < b.len() - 1 {
            let other = b.last();
            assert(b[b.len() - 1] == other);
            assert(b.contains(other));
            assert(a.contains(other));
            let i = choose|i: int| 0 <= i < a.len() && a[i] == other;
            assert(text_lt(b[j], b[b.len() - 1]));
            lemma_text_order_strict(top, other);
            if i < a.len() - 1 {
                assert(text_lt(a[i], a[a.len() - 1]));
            }
            assert(false);
        }
        let shorter_a = a.drop_last();
        let shorter_b = b.drop_last();
        assert forall|x: Seq<char>| shorter_a.contains(x) <==> shorter_b.contains(x) by {
            if shorter_a.contains(x) {
                let i = choose|i: int| 0 <= i < shorter_a.len() && shorter_a[i] == x;
                assert(text_lt(a[i], a[a.len() - 1]));
                lemma_text_order_strict(x, top);
                assert(a.contains(x));
                let k = choose|k: int| 0 <= k < b.len() && b[k] == x;
                assert(shorter_b[k] == x);
            }
            if shorter_b.contains(x) {
                let i = choose|i: int| 0 <= i < shorter_b.len() && shorter_b[i] == x;
                assert(text_lt(b[i], b[b.len() - 1]));
                lemma_text_order_strict(x, top);
                assert(b.contains(x));
                let k = choose|k: int| 0 <= k < a.len() && a[k] == x;
                assert(shorter_a[k] == x);
            }
        }
        assert forall|p: int, q: int| 0 <= p < q < shorter_a.len() implies text_lt(
            #[trigger] shorter_a[p],
            #[trigger] shorter_a[q],
        ) by {
            assert(text_lt(a[p], a[q]));
        }
        assert forall|p: int, q: int| 0 <= p < q < shorter_b.len() implies text_lt(
            #[trigger] shorter_b[p],
            #[trigger] shorter_b[q],
        ) by {
            assert(text_lt(b[p], b[q]));
        }
        lemma_ascending_unique(shorter_a, shorter_b);
        assert(a =~= shorter_a.push(top));
        assert(b =~= shorter_b.push(top));
    }
}

/// The list `list` with `x` put in at its place, unless the list holds it
/// already.
pub open spec fn placed(list: Seq<Seq<char>>, x: Seq<char>) -> Seq<Seq<char>>
    decreases list.len(),
{
    if list.len() == 0 {
        seq![x]
    } else if list.last() == x {
        list
    } else if text_lt(list.last(), x) {
        list.push(x)
    } else {
        placed(list.drop_last(), x).push(list.last())
    }
}

/// The list `list` with every one of `items` put in at its place.
pub open spec fn placed_all(list: Seq<Seq<char>>, items: Seq<Seq<char>>) -> Seq<Seq<char>>
    decreases items.len(),
{
    if items.len() == 0 {
        list
    } else {
        placed(placed_all(list, items.drop_last()), items.last())
    }
}

proof fn lemma_holds_after_push(list: Seq<Seq<char>>, x: Seq<char>, y: Seq<char>)
    ensures
        list.push(x).contains(y) <==> (list.contains(y) || y == x),
{
    let longer = list.push(x);
    if longer.contains(y) {
        let k = choose|k: int| 0 <= k < longer.len() && longer[k] == y;
        if k < list.len() {
            assert(list[k] == y);
        }
    }
    if list.contains(y) {
        let k = choose|k: int| 0 <= k < list.len() && list[k] == y;
        assert(longer[k] == y);
    }
    if y == x {
        assert(longer[list.len() as int] == y);
    }
}

/// Putting a text in at its place keeps a list in strict lexical order and
/// adds that text to what the list holds, and nothing else.
pub proof fn lemma_placed(list: Seq<Seq<char>>, x: Seq<char>)
    requires
        strictly_ascending(list),
    ensures
        strictly_ascending(placed(list, x)),
        forall|y: Seq<char>|
            #![trigger placed(list, x).contains(y)]
            #![trigger list.contains(y)]
            placed(list, x).contains(y) <==> (list.contains(y) || y == x),
    decreases list.len(),
{
    let result = placed(list, x);
    if list.len() == 0 {
        assert forall|y: Seq<char>| result.contains(y) <==> (list.contains(y) || y == x) by {
            lemma_holds_after_push(list, x, y);
            assert(result =~= list.push(x));
        }
    } else if list.last() == x {
        assert(list[list.len() - 1] == x);
    } else if text_lt(list.last(), x) {
        assert forall|i: int, j: int| 0 <= i < j < result.len() implies text_lt(
            #[trigger] result[i],
            #[trigger] result[j],
        ) by {
            if j == list.len() && i < list.len() - 1 {
                assert(text_lt(list[i], list[list.len() - 1]));
                lemma_text_order_transitive(list[i], list.last(), x);
            }
        }
        assert forall|y: Seq<char>| result.contains(y) <==> (list.contains(y) || y == x) by {
            lemma_holds_after_push(list, x, y);
        }
    } else {
        let shorter = list.drop_last();
        let last = list.last();
        assert forall|p: int, q: int| 0 <= p < q < shorter.len() implies text_lt(
            #[trigger] shorter[p],
            #[trigger] shorter[q],
        ) by {
            assert(text_lt(list[p], list[q]));
        }
        lemma_placed(shorter, x);
        let inner = placed(shorter, x);
        lemma_text_order_total(last, x);
        assert forall|i: int, j: int| 0 <= i < j < result.len() implies text_lt(
            #[trigger] result[i],
            #[trigger] result[j],
        ) by {
            if j == inner.len() {
                assert(inner.contains(inner[i]));
                if shorter.contains(inner[i]) {
                    let k = choose|k: int| 0 <= k < shorter.len() && shorter[k] == inner[i];
                    assert(text_lt(list[k], list[list.len() - 1]));
                }
            } else {
                assert(text_lt(inner[i], inner[j]));
            }
        }
        assert forall|y: Seq<char>| result.contains(y) <==> (list.contains(y) || y == x) by {
            lemma_holds_after_push(inner, last, y);
            lemma_holds_after_push(shorter, last, y);
            assert(shorter.push(last) =~= list);
        }
    }
}

/// Putting texts in at their places keeps a list in strict lexical order
/// and adds those texts to what the list holds, and nothing else.
pub proof fn lemma_placed_all(list: Seq<Seq<char>>, items: Seq<Seq<char>>)
    requires
        strictly_ascending(list),
    ensures
        strictly_ascending(placed_all(list, items)),
        forall|y: Seq<char>|
            #![trigger placed_all(list, items).contains(y)]
            #![trigger list.contains(y)]
            #![trigger items.contains(y)]
            placed_all(list, items).contains(y) <==> (list.contains(y) || items.contains(y)),
    decreases items.len(),
{
    let result = placed_all(list, items);
    if items.len() > 0 {
        let shorter = items.drop_last();
        lemma_placed_all(list, shorter);
        lemma_placed(placed_all(list, shorter), items.last());
        assert forall|y: Seq<char>| result.contains(y) <==> (list.contains(y) || items.contains(y)) by {
            lemma_holds_after_push(shorter, items.last(), y);
            assert(shorter.push(items.last()) =~= items);
        }
    }
}

proof fn lemma_names_listed(entries: Seq<SectionMetadataView>, n: int) -> (list: Seq<Seq<char>>)
    requires
        0 <= n <= entries.len(),
    ensures
        strictly_ascending(list),
        forall|x: Seq<char>|
            #![trigger list.contains(x)]
            #![trigger names_within(entries, n, x)]
            list.contains(x) <==> names_within(entries, n, x),
    decreases n,
{
    if n == 0 {
        Seq::empty()
    } else {
        let before = lemma_names_listed(entries, n - 1);
        let list = match entries[n - 1].section_id {
            Some(id) => placed(before, id),
            None => before,
        };
        if entries[n - 1].section_id is Some {
            lemma_placed(before, entries[n - 1].section_id.unwrap());
        }
        assert forall|x: Seq<char>| list.contains(x) <==> names_within(entries, n, x) by {
            if names_within(entries, n - 1, x) {
                let k = choose|k: int| k < n - 1 && names_at(entries, k, x);
                assert(names_at(entries, k, x));
            }
            if names_within(entries, n, x) {
                let k = choose|k: int| k < n && names_at(entries, k, x);
                if k < n - 1 {
                    assert(names_within(entries, n - 1, x));
                }
            }
            if entries[n - 1].section_id == Some(x) {
                assert(names_at(entries, n - 1, x));
            }
        }
        list
    }
}

proof fn lemma_cites_listed(entries: Seq<SectionMetadataView>, n: int, id: Seq<char>) -> (list: Seq<
    Seq<char>,
>)
    requires
        0 <= n <= entries.len(),
    ensures
        strictly_ascending(list),
        forall|x: Seq<char>|
            #![trigger list.contains(x)]
            #![trigger cites_within(entries, n, id, x)]
            list.contains(x) <==> cites_within(entries, n, id, x),
    decreases n,
{
    if n == 0 {
        Seq::empty()
    } else {
        let before = lemma_cites_listed(entries, n - 1, id);
        let entry = entries[n - 1];
        let added: Seq<Seq<char>> = if entry.section_id == Some(id) && entry.traced_ids is Some {
            entry.traced_ids.unwrap()
        } else {
            Seq::empty()
        };
        let list = placed_all(before, added);
        lemma_placed_all(before, added);
        assert forall|x: Seq<char>| list.contains(x) <==> cites_within(entries, n, id, x) by {
            assert(added.contains(x) <==> cites_at(entries, n - 1, id, x));
            if cites_within(entries, n - 1, id, x) {
                let k = choose|k: int| k < n - 1 && cites_at(entries, k, id, x);
                assert(cites_at(entries, k, id, x));
            }
            if cites_within(entries, n, id, x) {
                let k = choose|k: int| k < n && cites_at(entries, k, id, x);
                if k < n - 1 {
                    assert(cites_within(entries, n - 1, id, x));
                }
            }
            if cites_at(entries, n - 1, id, x) {
                assert(cites_within(entries, n, id, x));
            }
        }
        list
    }
}

proof fn lemma_cited_listed(entries: Seq<SectionMetadataView>, n: int) -> (list: Seq<Seq<char>>)
    requires
        0 <= n <= entries.len(),
    ensures
        strictly_ascending(list),
        forall|x: Seq<char>|
            #![trigger list.contains(x)]
            #![trigger cited_within(entries, n, x)]
            list.contains(x) <==> cited_within(entries, n, x),
    decreases n,
{
    if n == 0 {
        Seq::empty()
    } else {
        let before = lemma_cited_listed(entries, n - 1);
        let entry = entries[n - 1];
        let added: Seq<Seq<char>> = if entry.section_id is Some && entry.traced_ids is Some {
            entry.traced_ids.unwrap()
        } else {
            Seq::empty()
        };
        let list = placed_all(before, added);
        lemma_placed_all(before, added);
        assert forall|x: Seq<char>| list.contains(x) <==> cited_within(entries, n, x) by {
            assert(added.contains(x) <==> cited_at(entries, n - 1, x));
            if cited_within(entries, n - 1, x) {
                let k = choose|k: int| k < n - 1 && cited_at(entries, k, x);
                assert(cited_at(entries, k, x));
            }
            if cited_within(entries, n, x) {
                let k = choose|k: int| k < n && cited_at(entries, k, x);
                if k < n - 1 {
                    assert(cited_within(entries, n - 1, x));
                }
            }
            if cited_at(entries, n - 1, x) {
                assert(cited_within(entries, n, x));
            }
        }
        list
    }
}

proof fn lemma_citing_listed(entries: Seq<SectionMetadataView>, n: int, traced: Seq<char>) -> (list: Seq<
    Seq<char>,
>)
    requires
        0 <= n <= entries.len(),
    ensures
        strictly_ascending(list),
        forall|x: Seq<char>|
            #![trigger list.contains(x)]
            #![trigger cites_within(entries, n, x, traced)]
            list.contains(x) <==> cites_within(entries, n, x, traced),
    decreases n,
{
    if n == 0 {
        Seq::empty()
    } else {
        let before = lemma_citing_listed(entries, n - 1, traced);
        let entry = entries[n - 1];
        let traces = entry.traced_ids is Some && entry.traced_ids.unwrap().contains(traced);
        let list = if traces && entry.section_id is Some {
            placed(before, entry.section_id.unwrap())
        } else {
            before
        };
        if traces && entry.section_id is Some {
            lemma_placed(before, entry.section_id.unwrap());
        }
        assert forall|x: Seq<char>| list.contains(x) <==> cites_within(entries, n, x, traced) by {
            if cites_within(entries, n - 1, x, traced) {
                let k = choose|k: int| k < n - 1 && cites_at(entries, k, x, traced);
                assert(cites_at(entries, k, x, traced));
            }
            if cites_within(entries, n, x, traced) {
                let k = choose|k: int| k < n && cites_at(entries, k, x, traced);
                if k < n - 1 {
                    assert(cites_within(entries, n - 1, x, traced));
                }
            }
            if cites_at(entries, n - 1, x, traced) {
                assert(cites_within(entries, n, x, traced));
            }
        }
        list
    }
}

/// The lists that the two tables are made of are there for every list of
/// entries: `ascending_list` stands for a list in strict lexical order that
/// holds exactly the identifiers in question. So the keys of each table are
/// strictly ascending and each identifier has one row.
pub proof fn lemma_tables_are_listed(entries: Seq<SectionMetadataView>)
    ensures
        forward_listed(entries),
        reverse_listed(entries),
{
    let n = entries.len() as int;
    let ids = lemma_names_listed(entries, n);
    lemma_lists_is_ascending_list(ids, section_ids(entries));
    let traced = lemma_cited_listed(entries, n);
    lemma_lists_is_ascending_list(traced, traced_ids(entries));
    assert forall|id: Seq<char>| #[trigger] section_ids(entries).contains(id) implies lists(
        ascending_list(traced_by(entries, id)),
        traced_by(entries, id),
    ) by {
        let cells = lemma_cites_listed(entries, n, id);
        lemma_lists_is_ascending_list(cells, traced_by(entries, id));
    }
    assert forall|t: Seq<char>| #[trigger] traced_ids(entries).contains(t) implies lists(
        ascending_list(citing(entries, t)),
        citing(entries, t),
    ) by {
        let cells = lemma_citing_listed(entries, n, t);
        lemma_lists_is_ascending_list(cells, citing(entries, t));
    }
}

/// A list that holds the members of a set in lexical order is the list of
/// that set.
pub proof fn lemma_lists_is_ascending_list(list: Seq<Seq<char>>, set: Set<Seq<char>>)
    requires
        lists(list, set),
    ensures
        ascending_list(set) == list,
{
    let chosen = ascending_list(set);
    assert(lists(chosen, set));
    lemma_ascending_unique(chosen, list);
}

/// Puts `item` into a list in strict lexical order, unless the list holds
/// it already.
pub fn insert_ascending(list: &mut Vec<String>, item: &str)
    requires
        strictly_ascending(texts(old(list)@)),
    ensures
        strictly_ascending(texts(final(list)@)),
        forall|x: Seq<char>|
            #![trigger texts(final(list)@).contains(x)]
            #![trigger texts(old(list)@).contains(x)]
            texts(final(list)@).contains(x) <==> (texts(old(list)@).contains(x) || x == item@),
{
    let ghost before = texts(list@);
    let mut at: usize = 0;
    while at < list.len() && text_less(list[at].as_str(), item)
        invariant
            at <= list@.len(),
            before == texts(list@),
            forall|k: int| 0 <= k < at ==> text_lt(#[trigger] before[k], item@),
        decreases list.len() - at,
    {
        assert(before[at as int] == list@[at as int]@);
        at = at + 1;
    }
    if at < list.len() {
        assert(before[at as int] == list@[at as int]@);
        if text_equal(list[at].as_str(), item) {
            assert(before.contains(item@));
            return ;
        }
    }
    let owned = item.to_owned();
    list.insert(at, owned);
    proof {
        let after = texts(list@);
        assert(after =~= before.insert(at as int, item@));
        assert forall|k: int| at <= k < before.len() implies text_lt(item@, #[trigger] before[k]) by {
            lemma_text_order_total(before[at as int], item@);
            if k > at {
                assert(text_lt(before[at as int], before[k]));
                lemma_text_order_transitive(item@, before[at as int], before[k]);
            }
        }
        assert forall|i: int, j: int| 0 <= i < j < after.len() implies text_lt(
            #[trigger] after[i],
            #[trigger] after[j],
        ) by {
            if j < at {
                assert(after[i] == before[i] && after[j] == before[j]);
            } else if j == at {
                assert(after[i] == before[i]);
            } else if i < at {
                assert(after[i] == before[i] && after[j] == before[j - 1]);
            } else if i == at {
                assert(after[j] == before[j - 1]);
            } else {
                assert(after[i] == before[i - 1] && after[j] == before[j - 1]);
            }
        }
        assert forall|x: Seq<char>| after.contains(x) <==> (before.contains(x) || x == item@) by {
            if after.contains(x) {
                let k = choose|k: int| 0 <= k < after.len() && after[k] == x;
                if k < at {
                    assert(before[k] == x);
                } else if k > at {
                    assert(before[k - 1] == x);
                }
            }
            if before.contains(x) {
                let k = choose|k: int| 0 <= k < before.len() && before[k] == x;
                if k < at {
                    assert(after[k] == x);
                } else {
                    assert(after[k + 1] == x);
                }
            }
            if x == item@ {
                assert(after[at as int] == x);
            }
        }
    }
}

/// The text `x` stands at index `k` of `list`.
pub open spec fn stands_at(list: Seq<Seq<char>>, k: int, x: Seq<char>) -> bool {
    0 <= k < list.len() && list[k] == x
}

/// The text `x` stands among the first `n` texts of `list`.
pub open spec fn stands_within(list: Seq<Seq<char>>, n: int, x: Seq<char>) -> bool {
    exists|k: int| k < n && #[trigger] stands_at(list, k, x)
}

/// Puts every one of `items` into a list in strict lexical order.
pub fn merge_ascending(list: &mut Vec<String>, items: &Vec<String>)
    requires
        strictly_ascending(texts(old(list)@)),
    ensures
        strictly_ascending(texts(final(list)@)),
        forall|x: Seq<char>|
            #![trigger texts(final(list)@).contains(x)]
            #![trigger texts(old(list)@).contains(x)]
            #![trigger texts(items@).contains(x)]
            texts(final(list)@).contains(x) <==> (texts(old(list)@).contains(x) || texts(items@).contains(
                x,
            )),
{
    let ghost before = texts(list@);
    let ghost all = texts(items@);
    let mut i: usize = 0;
    while i < items.len()
        invariant
            i <= items.len(),
            all == texts(items@),
            strictly_ascending(texts(list@)),
            forall|x: Seq<char>|
                #![trigger texts(list@).contains(x)]
                #![trigger before.contains(x)]
                #![trigger stands_within(all, i as int, x)]
                texts(list@).contains(x) <==> (before.contains(x) || stands_within(all, i as int, x)),
        decreases items.len() - i,
    {
        assert(all[i as int] == items@[i as int]@);
        let ghost held = texts(list@);
        insert_ascending(list, items[i].as_str());
        proof {
            assert forall|x: Seq<char>|
                texts(list@).contains(x) <==> (before.contains(x) || stands_within(all, i + 1, x)) by {
                if x == all[i as int] {
                    assert(stands_at(all, i as int, x));
                }
                if stands_within(all, i as int, x) {
                    let k = choose|k: int| k < i && stands_at(all, k, x);
                    assert(stands_at(all, k, x));
                }
                if stands_within(all, i + 1, x) {
                    let k = choose|k: int| k < i + 1 && stands_at(all, k, x);
                    if k < i {
                        assert(stands_within(all, i as int, x));
                    }
                }
            }
        }
        i = i + 1;
    }
    proof {
        assert forall|x: Seq<char>|
            texts(list@).contains(x) <==> (before.contains(x) || all.contains(x)) by {
            if stands_within(all, i as int, x) {
                let k = choose|k: int| k < i && stands_at(all, k, x);
                assert(all[k] == x);
            }
            if all.contains(x) {
                let k = choose|k: int| 0 <= k < all.len() && all[k] == x;
                assert(stands_at(all, k, x));
            }
        }
    }
}

/// Whether `items` holds `item`.
pub fn holds(items: &Vec<String>, item: &str) -> (found: bool)
    ensures
        found == texts(items@).contains(item@),
{
    let ghost all = texts(items@);
    let mut i: usize = 0;
    while i < items.len()
        invariant
            i <= items.len(),
            all == texts(items@),
            forall|k: int| 0 <= k < i ==> #[trigger] all[k] != item@,
        decreases items.len() - i,
    {
        assert(all[i as int] == items@[i as int]@);
        if text_equal(items[i].as_str(), item) {
            return true;
        }
        i = i + 1;
    }
    false
}

fn forward_keys(entries: &Vec<SectionMetadata>) -> (keys: Vec<String>)
    ensures
        lists(texts(keys@), section_ids(entry_views(entries@))),
{
    let ghost views = entry_views(entries@);
    let mut keys: Vec<String> = Vec::new();
    let mut i: usize = 0;
    while i < entries.len()
        invariant
            i <= entries.len(),
            views == entry_views(entries@),
            strictly_ascending(texts(keys@)),
            forall|x: Seq<char>|
                #![trigger texts(keys@).contains(x)]
                #![trigger names_within(views, i as int, x)]
                texts(keys@).contains(x) <==> names_within(views, i as int, x),
        decreases entries.len() - i,
    {
        let ghost before = texts(keys@);
        assert(views[i as int] == entries@[i as int]@);
        match &entries[i].section_id {
            Some(id) => {
                insert_ascending(&mut keys, id.as_str());
            },
            None => {},
        }
        proof {
            assert forall|x: Seq<char>| texts(keys@).contains(x) <==> names_within(views, i + 1, x) by {
                if names_within(views, i as int, x) {
                    let k = choose|k: int| k < i && names_at(views, k, x);
                    assert(names_at(views, k, x));
                }
                if names_within(views, i + 1, x) {
                    let k = choose|k: int| k < i + 1 && names_at(views, k, x);
                    if k < i {
                        assert(names_within(views, i as int, x));
                    }
                }
                if views[i as int].section_id == Some(x) {
                    assert(names_at(views, i as int, x));
                }
            }
        }
        i = i + 1;
    }
    keys
}

fn forward_cells(entries: &Vec<SectionMetadata>, key: &str) -> (cells: Vec<String>)
    ensures
        lists(texts(cells@), traced_by(entry_views(entries@), key@)),
{
    let ghost views = entry_views(entries@);
    let mut cells: Vec<String> = Vec::new();
    let mut i: usize = 0;
    while i < entries.len()
        invariant
            i <= entries.len(),
            views == entry_views(entries@),
            strictly_ascending(texts(cells@)),
            forall|x: Seq<char>|
                #![trigger texts(cells@).contains(x)]
                #![trigger cites_within(views, i as int, key@, x)]
                texts(cells@).contains(x) <==> cites_within(views, i as int, key@, x),
        decreases entries.len() - i,
    {
        assert(views[i as int] == entries@[i as int]@);
        let ghost before = texts(cells@);
        let named = match &entries[i].section_id {
            Some(id) => text_equal(id.as_str(), key),
            None => false,
        };
        let ghost cited: Seq<Seq<char>> = if named && views[i as int].traced_ids is Some {
            views[i as int].traced_ids.unwrap()
        } else {
            Seq::empty()
        };
        if named {
            match &entries[i].traced_ids {
                Some(ids) => {
                    assert(texts(ids@) == cited);
                    merge_ascending(&mut cells, ids);
                },
                None => {},
            }
        }
        assert(forall|x: Seq<char>|
            #![trigger texts(cells@).contains(x)]
            #![trigger before.contains(x)]
            #![trigger cited.contains(x)]
            texts(cells@).contains(x) <==> (before.contains(x) || cited.contains(x)));
        proof {
            assert forall|x: Seq<char>| texts(cells@).contains(x) <==> cites_within(
                views,
                i + 1,
                key@,
                x,
            ) by {
                assert(cited.contains(x) <==> cites_at(views, i as int, key@, x));
                if cites_within(views, i as int, key@, x) {
                    let k = choose|k: int| k < i && cites_at(views, k, key@, x);
                    assert(cites_at(views, k, key@, x));
                }
                if cites_within(views, i + 1, key@, x) {
                    let k = choose|k: int| k < i + 1 && cites_at(views, k, key@, x);
                    if k < i {
                        assert(cites_within(views, i as int, key@, x));
                    }
                }
                if cites_at(views, i as int, key@, x) {
                    assert(cites_within(views, i + 1, key@, x));
                }
            }
        }
        i = i + 1;
    }
    cells
}

fn reverse_keys(entries: &Vec<SectionMetadata>) -> (keys: Vec<String>)
    ensures
        lists(texts(keys@), traced_ids(entry_views(entries@))),
{
    let ghost views = entry_views(entries@);
    let mut keys: Vec<String> = Vec::new();
    let mut i: usize = 0;
    while i < entries.len()
        invariant
            i <= entries.len(),
            views == entry_views(entries@),
            strictly_ascending(texts(keys@)),
            forall|x: Seq<char>|
                #![trigger texts(keys@).contains(x)]
                #![trigger cited_within(views, i as int, x)]
                texts(keys@).contains(x) <==> cited_within(views, i as int, x),
        decreases entries.len() - i,
    {
        assert(views[i as int] == entries@[i as int]@);
        let ghost before = texts(keys@);
        let ghost cited: Seq<Seq<char>> = if views[i as int].section_id is Some && views[i as int].traced_ids is Some {
            views[i as int].traced_ids.unwrap()
        } else {
            Seq::empty()
        };
        if entries[i].section_id.is_some() {
            match &entries[i].traced_ids {
                Some(ids) => {
                    assert(texts(ids@) == cited);
                    merge_ascending(&mut keys, ids);
                },
                None => {},
            }
        }
        assert(forall|x: Seq<char>|
            #![trigger texts(keys@).contains(x)]
            #![trigger before.contains(x)]
            #![trigger cited.contains(x)]
            texts(keys@).contains(x) <==> (before.contains(x) || cited.contains(x)));
        proof {
            assert forall|x: Seq<char>| texts(keys@).contains(x) <==> cited_within(views, i + 1, x) by {
                assert(cited.contains(x) <==> cited_at(views, i as int, x));
                if cited_within(views, i as int, x) {
                    let k = choose|k: int| k < i && cited_at(views, k, x);
                    assert(cited_at(views, k, x));
                }
                if cited_within(views, i + 1, x) {
                    let k = choose|k: int| k < i + 1 && cited_at(views, k, x);
                    if k < i {
                        assert(cited_within(views, i as int, x));
                    }
                }
                if cited_at(views, i as int, x) {
                    assert(cited_within(views, i + 1, x));
                }
            }
        }
        i = i + 1;
    }
    keys
}

fn reverse_cells(entries: &Vec<SectionMetadata>, key: &str) -> (cells: Vec<String>)
    ensures
        lists(texts(cells@), citing(entry_views(entries@), key@)),
{
    let ghost views = entry_views(entries@);
    let mut cells: Vec<String> = Vec::new();
    let mut i: usize = 0;
    while i < entries.len()
        invariant
            i <= entries.len(),
            views == entry_views(entries@),
            strictly_ascending(texts(cells@)),
            forall|x: Seq<char>|
                #![trigger texts(cells@).contains(x)]
                #![trigger cites_within(views, i as int, x, key@)]
                texts(cells@).contains(x) <==> cites_within(views, i as int, x, key@),
        decreases entries.len() - i,
    {
        assert(views[i as int] == entries@[i as int]@);
        let traces = match &entries[i].traced_ids {
            Some(ids) => holds(ids, key),
            None => false,
        };
        if traces {
            match &entries[i].section_id {
                Some(id) => {
                    insert_ascending(&mut cells, id.as_str());
                },
                None => {},
            }
        }
        proof {
            assert forall|x: Seq<char>| texts(cells@).contains(x) <==> cites_within(
                views,
                i + 1,
                x,
                key@,
            ) by {
                if cites_within(views, i as int, x, key@) {
                    let k = choose|k: int| k < i && cites_at(views, k, x, key@);
                    assert(cites_at(views, k, x, key@));
                }
                if cites_within(views, i + 1, x, key@) {
                    let k = choose|k: int| k < i + 1 && cites_at(views, k, x, key@);
                    if k < i {
                        assert(cites_within(views, i as int, x, key@));
                    }
                }
                if cites_at(views, i as int, x, key@) {
                    assert(cites_within(views, i + 1, x, key@));
                }
            }
        }
        i = i + 1;
    }
    cells
}

/// The table from section identifiers to the identifiers they trace to,
/// drawn from all entries. Entries without an identifier of their own have
/// no row; an identifier without traced identifiers has a row with nothing
/// in it.
pub fn forward_traceability_table(entries: &Vec<SectionMetadata>) -> (rows: Vec<TraceabilityRow>)
    ensures
        row_views(rows@) == forward_table(entry_views(entries@)),
        forward_listed(entry_views(entries@)),
        forall|i: int, j: int|
            0 <= i < j < rows@.len() ==> text_lt((#[trigger] rows@[i]).key@, (#[trigger] rows@[j]).key@),
{
    let ghost views = entry_views(entries@);
    let keys = forward_keys(entries);
    proof {
        lemma_lists_is_ascending_list(texts(keys@), section_ids(views));
    }
    let mut rows: Vec<TraceabilityRow> = Vec::new();
    let mut i: usize = 0;
    while i < keys.len()
        invariant
            i <= keys.len(),
            views == entry_views(entries@),
            texts(keys@) == ascending_list(section_ids(views)),
            rows@.len() == i,
            forall|k: int| 0 <= k < i ==> (#[trigger] rows@[k])@ == forward_table(views)[k],
        decreases keys.len() - i,
    {
        assert(texts(keys@)[i as int] == keys@[i as int]@);
        let cells = forward_cells(entries, keys[i].as_str());
        proof {
            lemma_lists_is_ascending_list(texts(cells@), traced_by(views, keys@[i as int]@));
        }
        let values = join_strings(&cells, ",");
        rows.push(TraceabilityRow { key: keys[i].clone(), values });
        i = i + 1;
    }
    assert(row_views(rows@) =~= forward_table(views));
    proof {
        lemma_tables_are_listed(views);
        assert forall|i: int, j: int| 0 <= i < j < rows@.len() implies text_lt(
            (#[trigger] rows@[i]).key@,
            (#[trigger] rows@[j]).key@,
        ) by {
            assert(rows@[i]@ == forward_table(views)[i] && rows@[j]@ == forward_table(views)[j]);
        }
    }
    rows
}

/// The table from traced identifiers to the identifiers of the sections
/// that trace to them, drawn from all entries.
pub fn reverse_traceability_table(entries: &Vec<SectionMetadata>) -> (rows: Vec<TraceabilityRow>)
    ensures
        row_views(rows@) == reverse_table(entry_views(entries@)),
        reverse_listed(entry_views(entries@)),
        forall|i: int, j: int|
            0 <= i < j < rows@.len() ==> text_lt((#[trigger] rows@[i]).key@, (#[trigger] rows@[j]).key@),
{
    let ghost views = entry_views(entries@);
    let keys = reverse_keys(entries);
    proof {
        lemma_lists_is_ascending_list(texts(keys@), traced_ids(views));
    }
    let mut rows: Vec<TraceabilityRow> = Vec::new();
    let mut i: usize = 0;
    while i < keys.len()
        invariant
            i <= keys.len(),
            views == entry_views(entries@),
            texts(keys@) == ascending_list(traced_ids(views)),
            rows@.len() == i,
            forall|k: int| 0 <= k < i ==> (#[trigger] rows@[k])@ == reverse_table(views)[k],
        decreases keys.len() - i,
    {
        assert(texts(keys@)[i as int] == keys@[i as int]@);
        let cells = reverse_cells(entries, keys[i].as_str());
        proof {
            lemma_lists_is_ascending_list(texts(cells@), citing(views, keys@[i as int]@));
        }
        let values = join_strings(&cells, ",");
        rows.push(TraceabilityRow { key: keys[i].clone(), values });
        i = i + 1;
    }
    assert(row_views(rows@) =~= reverse_table(views));
    proof {
        lemma_tables_are_listed(views);
        assert forall|i: int, j: int| 0 <= i < j < rows@.len() implies text_lt(
            (#[trigger] rows@[i]).key@,
            (#[trigger] rows@[j]).key@,
        ) by {
            assert(rows@[i]@ == reverse_table(views)[i] && rows@[j]@ == reverse_table(views)[j]);
        }
    }
    rows
}

proof fn lemma_entry_occurs(a: Seq<SectionMetadataView>, b: Seq<SectionMetadataView>, k: int)
    requires
        a.to_multiset() == b.to_multiset(),
        0 <= k < a.len(),
    ensures
        exists|m: int| 0 <= m < b.len() && b[m] == a[k],
{
    assert(a.contains(a[k]));
    to_multiset_contains(a, a[k]);
    to_multiset_contains(b, a[k]);
    assert(b.contains(a[k]));
}

proof fn lemma_relations_carry_over(a: Seq<SectionMetadataView>, b: Seq<SectionMetadataView>)
    requires
        a.to_multiset() == b.to_multiset(),
    ensures
        forall|id: Seq<char>|
            names_within(a, a.len() as int, id) ==> #[trigger] names_within(b, b.len() as int, id),
        forall|traced: Seq<char>|
            cited_within(a, a.len() as int, traced) ==> #[trigger] cited_within(b, b.len() as int, traced),
        forall|id: Seq<char>, traced: Seq<char>|
            cites_within(a, a.len() as int, id, traced) ==> #[trigger] cites_within(
                b,
                b.len() as int,
                id,
                traced,
            ),
{
    assert forall|id: Seq<char>| names_within(a, a.len() as int, id) implies #[trigger] names_within(
        b,
        b.len() as int,
        id,
    ) by {
        let k = choose|k: int| k < a.len() && names_at(a, k, id);
        lemma_entry_occurs(a, b, k);
        let m = choose|m: int| 0 <= m < b.len() && b[m] == a[k];
        assert(names_at(b, m, id));
    }
    assert forall|traced: Seq<char>| cited_within(a, a.len() as int, traced) implies #[trigger] cited_within(
        b,
        b.len() as int,
        traced,
    ) by {
        let k = choose|k: int| k < a.len() && cited_at(a, k, traced);
        lemma_entry_occurs(a, b, k);
        let m = choose|m: int| 0 <= m < b.len() && b[m] == a[k];
        assert(cited_at(b, m, traced));
    }
    assert forall|id: Seq<char>, traced: Seq<char>|
        cites_within(a, a.len() as int, id, traced) implies #[trigger] cites_within(
        b,
        b.len() as int,
        id,
        traced,
    ) by {
        let k = choose|k: int| k < a.len() && cites_at(a, k, id, traced);
        lemma_entry_occurs(a, b, k);
        let m = choose|m: int| 0 <= m < b.len() && b[m] == a[k];
        assert(cites_at(b, m, id, traced));
    }
}

/// Both tables depend on which entries the document holds, and not on the
/// order in which they were found.
pub proof fn lemma_tables_ignore_order(a: Seq<SectionMetadataView>, b: Seq<SectionMetadataView>)
    requires
        a.to_multiset() == b.to_multiset(),
    ensures
        forward_table(a) == forward_table(b),
        reverse_table(a) == reverse_table(b),
{
    lemma_relations_carry_over(a, b);
    lemma_relations_carry_over(b, a);
    assert(section_ids(a) =~= section_ids(b));
    assert(traced_ids(a) =~= traced_ids(b));
    assert forall|id: Seq<char>| #[trigger] traced_by(a, id) == traced_by(b, id) by {
        assert(traced_by(a, id) =~= traced_by(b, id));
    }
    assert forall|traced: Seq<char>| #[trigger] citing(a, traced) == citing(b, traced) by {
        assert(citing(a, traced) =~= citing(b, traced));
    }
    assert(forward_table(a) =~= forward_table(b));
    assert(reverse_table(a) =~= reverse_table(b));
}

/// The records that take part in the tables of a document: the metadata of
/// every section that has an identifier or traced identifiers, in document
/// order.
pub open spec fn section_entries(sections: Seq<MarkdownSection>) -> Seq<SectionMetadataView>
    decreases sections.len(),
{
    if sections.len() == 0 {
        Seq::empty()
    } else {
        let before = section_entries(sections.drop_last());
        match metadata_view(sections.last().metadata) {
            Some(entry) => if entry.section_id is Some || entry.traced_ids is Some {
                before.push(entry)
            } else {
                before
            },
            None => before,
        }
    }
}

/// Which of the two tables a section asks for.
#[derive(Debug, Clone, Copy, PartialEq, Eq, Structural)]
pub enum TableKind {
    /// From section identifiers to traced identifiers.
    SectionToTraced,
    /// From traced identifiers to section identifiers.
    TracedToSection,
}

/// A table to be inserted at a section.
#[derive(Debug)]
pub struct GeneratedTable {
    /// Index of the section in the document at which the table goes.
    pub section: usize,
    /// Which table it is.
    pub kind: TableKind,
    /// The rows, drawn from the whole document.
    pub rows: Vec<TraceabilityRow>,
}

/// The requests for tables in document order: for each section the table
/// from section identifiers first, then the table from traced identifiers,
/// each where its flag is set.
pub open spec fn table_requests(sections: Seq<MarkdownSection>) -> Seq<(int, TableKind)>
    decreases sections.len(),
{
    if sections.len() == 0 {
        Seq::empty()
    } else {
        let at = sections.len() - 1;
        let before = table_requests(sections.drop_last());
        match metadata_view(sections.last().metadata) {
            Some(entry) => {
                let first = if entry.generate_section_id_to_traced_ids_table {
                    before.push((at, TableKind::SectionToTraced))
                } else {
                    before
                };
                if entry.generate_traced_ids_to_section_ids_table {
                    first.push((at, TableKind::TracedToSection))
                } else {
                    first
                }
            },
            None => before,
        }
    }
}

/// The table of the kind `kind` for the whole document.
pub open spec fn table_of(kind: TableKind, entries: Seq<SectionMetadataView>) -> Seq<TraceabilityRowView> {
    match kind {
        TableKind::SectionToTraced => forward_table(entries),
        TableKind::TracedToSection => reverse_table(entries),
    }
}

/// The records of a document that take part in its tables.
pub fn traceability_entries(document: &UnifiedDocument) -> (entries: Vec<SectionMetadata>)
    ensures
        entry_views(entries@) == section_entries(document.sections@),
{
    let ghost all = document.sections@;
    let mut entries: Vec<SectionMetadata> = Vec::new();
    let mut i: usize = 0;
    assert(entry_views(entries@) =~= Seq::empty());
    while i < document.sections.len()
        invariant
            i <= document.sections.len(),
            all == document.sections@,
            entry_views(entries@) == section_entries(all.take(i as int)),
        decreases document.sections.len() - i,
    {
        let ghost found = entry_views(entries@);
        proof {
            assert(all.take(i + 1).drop_last() =~= all.take(i as int));
            assert(all.take(i + 1).last() == all[i as int]);
        }
        match &document.sections[i].metadata {
            Some(metadata) => {
                if metadata.has_traceability() {
                    let entry = metadata.clone();
                    entries.push(entry);
                    assert(entry_views(entries@) =~= found.push(entry@));
                }
            },
            None => {},
        }
        i = i + 1;
    }
    assert(all.take(document.sections.len() as int) =~= all);
    entries
}

/// The tables that the sections of a document ask for. A request decides
/// where a table goes; what the table holds is drawn from the whole document
/// every time, so two requests for the same table yield two equal tables.
pub fn generated_tables(document: &UnifiedDocument) -> (tables: Vec<GeneratedTable>)
    ensures
        tables@.len() == table_requests(document.sections@).len(),
        forall|i: int|
            0 <= i < tables@.len() ==> {
                &&& (#[trigger] tables@[i]).section == table_requests(document.sections@)[i].0
                &&& tables@[i].kind == table_requests(document.sections@)[i].1
                &&& row_views(tables@[i].rows@) == table_of(
                    tables@[i].kind,
                    section_entries(document.sections@),
                )
            },
{
    let ghost all = document.sections@;
    let entries = traceability_entries(document);
    let ghost views = entry_views(entries@);
    let mut tables: Vec<GeneratedTable> = Vec::new();
    let mut i: usize = 0;
    while i < document.sections.len()
        invariant
            i <= document.sections.len(),
            all == document.sections@,
            views == entry_views(entries@),
            views == section_entries(all),
            tables@.len() == table_requests(all.take(i as int)).len(),
            forall|k: int|
                0 <= k < tables@.len() ==> {
                    &&& (#[trigger] tables@[k]).section == table_requests(all.take(i as int))[k].0
                    &&& tables@[k].kind == table_requests(all.take(i as int))[k].1
                    &&& row_views(tables@[k].rows@) == table_of(tables@[k].kind, views)
                },
        decreases document.sections.len() - i,
    {
        proof {
            assert(all.take(i + 1).drop_last() =~= all.take(i as int));
            assert(all.take(i + 1).last() == all[i as int]);
        }
        match &document.sections[i].metadata {
            Some(metadata) => {
                if metadata.generate_section_id_to_traced_ids_table {
                    let rows = forward_traceability_table(&entries);
                    tables.push(GeneratedTable { section: i, kind: TableKind::SectionToTraced, rows });
                }
                if metadata.generate_traced_ids_to_section_ids_table {
                    let rows = reverse_traceability_table(&entries);
                    tables.push(GeneratedTable { section: i, kind: TableKind::TracedToSection, rows });
                }
            },
            None => {},
        }
        i = i + 1;
    }
    assert(all.take(document.sections.len() as int) =~= all);
    tables
}

} // verus!
