//! The manifest document, seen as a tree of named entries.
//!
//! The document itself is a `toml_edit` value, which keeps every comment and
//! every piece of whitespace of the text it was parsed from. Verus sees it only
//! through the model below: a table is the ordered sequence of its entries,
//! each a key and a `Node`.
use vstd::prelude::*;

verus! {

/// What an item of the document is, with its formatting left out.
pub enum Node {
    /// A placeholder entry that holds nothing and is not rendered.
    Empty,
    /// A value (a string, a number, an inline table, ...), as written.
    Value(Seq<char>),
    /// A table with its entries in document order, and whether it is written
    /// as dotted keys in its parent (else under a header of its own).
    Table(Seq<(Seq<char>, Node)>, bool),
    /// An array of tables.
    TableArray(Seq<Seq<(Seq<char>, Node)>>),
}

/// The entries of a table, in order.
pub type Entries = Seq<(Seq<char>, Node)>;

/// The node stored under key `k`, or `Empty` where there is none.
pub open spec fn lookup(es: Entries, k: Seq<char>) -> Node
    decreases es.len(),
{
    if es.len() == 0 {
        Node::Empty
    } else if es[0].0 == k {
        es[0].1
    } else {
        lookup(es.drop_first(), k)
    }
}

/// `es` with `v` stored under `k`: in the place of the entry with that key, or
/// appended after the others where there is none.
pub open spec fn put(es: Entries, k: Seq<char>, v: Node) -> Entries
    decreases es.len(),
{
    if es.len() == 0 {
        seq![(k, v)]
    } else if es[0].0 == k {
        es.update(0, (k, v))
    } else {
        seq![es[0]] + put(es.drop_first(), k, v)
    }
}

/// `es` without the entries whose key is `k`, the others keeping their order.
pub open spec fn without(es: Entries, k: Seq<char>) -> Entries
    decreases es.len(),
{
    if es.len() == 0 {
        es
    } else if es[0].0 == k {
        without(es.drop_first(), k)
    } else {
        seq![es[0]] + without(es.drop_first(), k)
    }
}

/// Whether some entry has key `k`.
pub open spec fn has_key(es: Entries, k: Seq<char>) -> bool {
    exists|i: int| 0 <= i < es.len() && #[trigger] es[i].0 == k
}

/// No two entries share a key.
pub open spec fn keys_unique(es: Entries) -> bool {
    forall|i: int, j: int| 0 <= i < j < es.len() ==> #[trigger] es[i].0 != #[trigger] es[j].0
}

/// A table with no entry that holds anything is rendered as empty.
pub open spec fn all_empty(es: Entries) -> bool {
    forall|i: int| 0 <= i < es.len() ==> #[trigger] es[i].1 == Node::Empty
}

/// The keys of the entries that hold something, in order.
pub open spec fn present_keys(es: Entries) -> Seq<Seq<char>>
    decreases es.len(),
{
    if es.len() == 0 {
        Seq::empty()
    } else if es[0].1 == Node::Empty {
        present_keys(es.drop_first())
    } else {
        seq![es[0].0] + present_keys(es.drop_first())
    }
}

/// What a table found under a key holds, or the entries of a new one where the
/// key holds nothing; `None` where it holds something else.
pub open spec fn table_or_new(n: Node) -> Option<Entries> {
    match n {
        Node::Empty => Some(Seq::empty()),
        Node::Table(es, _) => Some(es),
        _ => None,
    }
}

/// The entries of a table, placeholders included.
pub uninterp spec fn table_entries(t: toml_edit::Table) -> Entries;

/// Whether a table renders its entries as dotted keys in its parent.
pub uninterp spec fn table_dotted(t: toml_edit::Table) -> bool;

/// What an item holds.
pub uninterp spec fn item_node(i: toml_edit::Item) -> Node;

/// The entries of a document's root table.
pub uninterp spec fn document_entries(d: toml_edit::DocumentMut) -> Entries;

/// The text of a document, with the formatting it was parsed with.
pub uninterp spec fn document_text(d: toml_edit::DocumentMut) -> Seq<char>;

/// What a text parses to as a document, if it is one.
pub uninterp spec fn parsed_document(s: Seq<char>) -> Option<Entries>;

/// What a text parses to as a single value, if it is one.
pub uninterp spec fn parsed_value(s: Seq<char>) -> Option<Seq<char>>;

/// Whether the root item of a document is a table, as parsing makes it.
pub uninterp spec fn root_is_table(d: toml_edit::DocumentMut) -> bool;

#[verifier::external_type_specification]
#[verifier::external_body]
pub struct ExDocumentMut(toml_edit::DocumentMut);

#[verifier::external_type_specification]
#[verifier::external_body]
pub struct ExTable(toml_edit::Table);

#[verifier::external_type_specification]
#[verifier::external_body]
pub struct ExItem(toml_edit::Item);

#[verifier::external_type_specification]
#[verifier::external_body]
pub struct ExTomlError(toml_edit::TomlError);

/// Relies on `<toml_edit::DocumentMut as FromStr>::from_str`: a text parses to
/// one document, whose root is a table, or is refused; the tables of a
/// document never share a key.
#[verifier::external_body]
pub(crate) fn parse_document(s: &str) -> (r: Result<toml_edit::DocumentMut, toml_edit::TomlError>)
    ensures
        r is Ok <==> parsed_document(s@) is Some,
        r is Ok ==> document_entries(r->Ok_0) == parsed_document(s@)->Some_0,
        r is Ok ==> keys_unique(document_entries(r->Ok_0)),
        r is Ok ==> root_is_table(r->Ok_0),
{
    s.parse::<toml_edit::DocumentMut>()
}

/// Relies on `toml_edit::DocumentMut::as_table_mut`: the root table, through
/// which the document is changed. It panics where the root is not a table;
/// writing through the table leaves the root a table.
#[verifier::external_body]
pub(crate) fn document_root(d: &mut toml_edit::DocumentMut) -> (r: &mut toml_edit::Table)
    requires
        root_is_table(*old(d)),
    ensures
        table_entries(*r) == document_entries(*old(d)),
        keys_unique(table_entries(*r)),
        document_entries(*final(d)) == table_entries(*final(r)),
        root_is_table(*final(d)),
{
    d.as_table_mut()
}

/// Relies on `toml_edit::DocumentMut`'s `Display`: the document's text. It
/// panics where the root is not a table.
#[verifier::external_body]
pub(crate) fn render_document(d: &toml_edit::DocumentMut) -> (r: String)
    requires
        root_is_table(*d),
    ensures
        r@ == document_text(*d),
{
    d.to_string()
}

/// Relies on `<toml_edit::Item as FromStr>::from_str`: a text parses to one
/// value, held as `Item::Value`, or is refused.
#[verifier::external_body]
pub(crate) fn parse_value(s: &str) -> (r: Result<toml_edit::Item, toml_edit::TomlError>)
    ensures
        r is Ok <==> parsed_value(s@) is Some,
        r is Ok ==> item_node(r->Ok_0) == Node::Value(parsed_value(s@)->Some_0),
{
    s.parse::<toml_edit::Item>()
}

/// Relies on `toml_edit::Table::new`: a table with no entries, rendered with a
/// header.
#[verifier::external_body]
pub(crate) fn new_table() -> (r: toml_edit::Table)
    ensures
        table_entries(r) == Seq::<(Seq<char>, Node)>::empty(),
        !table_dotted(r),
{
    toml_edit::Table::new()
}

/// Relies on `toml_edit::Item::Table`: an item that holds the table.
#[verifier::external_body]
pub(crate) fn table_item(t: toml_edit::Table) -> (r: toml_edit::Item)
    ensures
        item_node(r) == Node::Table(table_entries(t), table_dotted(t)),
{
    toml_edit::Item::Table(t)
}

/// Relies on `toml_edit::Table::contains_key`: whether the key holds something.
#[verifier::external_body]
pub(crate) fn table_contains(t: &toml_edit::Table, k: &str) -> (r: bool)
    ensures
        r == (lookup(table_entries(*t), k@) != Node::Empty),
{
    t.contains_key(k)
}

/// Relies on `toml_edit::Table::get_mut`: the item under a key, where it holds
/// something; what is written through it lands in that entry.
#[verifier::external_body]
pub(crate) fn table_get_mut<'a>(t: &'a mut toml_edit::Table, k: &str) -> (r: Option<
    &'a mut toml_edit::Item,
>)
    ensures
        r is Some <==> lookup(table_entries(*old(t)), k@) != Node::Empty,
        r is Some ==> item_node(*r->Some_0) == lookup(table_entries(*old(t)), k@),
        r is Some ==> table_entries(*final(t)) == put(
            table_entries(*old(t)),
            k@,
            item_node(*final(r->Some_0)),
        ),
        r is None ==> table_entries(*final(t)) == table_entries(*old(t)),
        table_dotted(*final(t)) == table_dotted(*old(t)),
{
    t.get_mut(k)
}

/// Relies on `toml_edit::Item::as_table_mut`: the table an item holds, if it is
/// one (an inline table is a value, not a table).
#[verifier::external_body]
pub(crate) fn item_as_table_mut(i: &mut toml_edit::Item) -> (r: Option<&mut toml_edit::Table>)
    ensures
        r is Some <==> item_node(*old(i)) is Table,
        r is Some ==> item_node(*old(i)) == Node::Table(
            table_entries(*r->Some_0),
            table_dotted(*r->Some_0),
        ),
        r is Some ==> keys_unique(table_entries(*r->Some_0)),
        r is Some ==> item_node(*final(i)) == Node::Table(
            table_entries(*final(r->Some_0)),
            table_dotted(*final(r->Some_0)),
        ),
        r is None ==> item_node(*final(i)) == item_node(*old(i)),
{
    i.as_table_mut()
}

/// Relies on `toml_edit::Table::insert`: the entry with that key gets the item
/// in its place, or a new entry is appended.
#[verifier::external_body]
pub(crate) fn table_insert(t: &mut toml_edit::Table, k: &str, item: toml_edit::Item)
    ensures
        table_entries(*final(t)) == put(table_entries(*old(t)), k@, item_node(item)),
        table_dotted(*final(t)) == table_dotted(*old(t)),
{
    t.insert(k, item);
}

/// Relies on `toml_edit::Table::remove`: the entry with that key goes, and the
/// others keep their order.
#[verifier::external_body]
pub(crate) fn table_remove(t: &mut toml_edit::Table, k: &str)
    ensures
        table_entries(*final(t)) == without(table_entries(*old(t)), k@),
        table_dotted(*final(t)) == table_dotted(*old(t)),
{
    t.remove(k);
}

/// Relies on `toml_edit::Table::is_empty`: no entry holds anything.
#[verifier::external_body]
pub(crate) fn table_is_empty(t: &toml_edit::Table) -> (r: bool)
    ensures
        r == all_empty(table_entries(*t)),
{
    t.is_empty()
}

/// Relies on `toml_edit::Table::set_dotted`: only the rendering style changes.
#[verifier::external_body]
pub(crate) fn table_set_dotted(t: &mut toml_edit::Table, yes: bool)
    ensures
        table_entries(*final(t)) == table_entries(*old(t)),
        table_dotted(*final(t)) == yes,
{
    t.set_dotted(yes);
}

/// Relies on `toml_edit::Table::iter`: the keys that hold something, in order.
#[verifier::external_body]
pub(crate) fn table_keys(t: &toml_edit::Table) -> (r: Vec<String>)
    ensures
        r@.map_values(|s: String| s@) == present_keys(table_entries(*t)),
{
    t.iter().map(|(k, _)| k.to_string()).collect()
}

} // verus!

verus! {

/// Relies on `toml_edit::TomlError`'s `Display`: the parser's message.
#[verifier::external_body]
pub(crate) fn error_message(e: &toml_edit::TomlError) -> (r: String) {
    e.to_string()
}

/// Storing again what a key already holds changes nothing.
pub proof fn lemma_put_lookup(es: Entries, k: Seq<char>)
    requires
        lookup(es, k) != Node::Empty,
    ensures
        put(es, k, lookup(es, k)) == es,
    decreases es.len(),
{
    if es.len() > 0 && es[0].0 != k {
        lemma_put_lookup(es.drop_first(), k);
        assert(es == seq![es[0]] + es.drop_first());
    }
}

/// What was just stored under a key is found there.
pub proof fn lemma_lookup_put(es: Entries, k: Seq<char>, v: Node)
    ensures
        lookup(put(es, k, v), k) == v,
    decreases es.len(),
{
    if es.len() > 0 && es[0].0 != k {
        lemma_lookup_put(es.drop_first(), k, v);
        assert((seq![es[0]] + put(es.drop_first(), k, v)).drop_first() == put(es.drop_first(), k, v));
    }
}

/// A second store under the same key replaces the first.
pub proof fn lemma_put_put(es: Entries, k: Seq<char>, v1: Node, v2: Node)
    ensures
        put(put(es, k, v1), k, v2) == put(es, k, v2),
    decreases es.len(),
{
    if es.len() == 0 {
        assert(put(seq![(k, v1)], k, v2) == seq![(k, v1)].update(0, (k, v2)));
        assert(seq![(k, v1)].update(0, (k, v2)) == seq![(k, v2)]);
    } else if es[0].0 == k {
        assert(es.update(0, (k, v1)).update(0, (k, v2)) == es.update(0, (k, v2)));
    } else {
        lemma_put_put(es.drop_first(), k, v1, v2);
        let once = seq![es[0]] + put(es.drop_first(), k, v1);
        assert(once.drop_first() == put(es.drop_first(), k, v1));
    }
}

/// Where keys are unique, the entry at index `j` is the one `lookup` and
/// `put` reach for its key.
pub proof fn lemma_unique_index(es: Entries, j: int, v: Node)
    requires
        keys_unique(es),
        0 <= j < es.len(),
    ensures
        lookup(es, es[j].0) == es[j].1,
        put(es, es[j].0, v) == es.update(j, (es[j].0, v)),
    decreases es.len(),
{
    let k = es[j].0;
    if j > 0 {
        assert(es[0].0 != k);
        let rest = es.drop_first();
        assert(rest[j - 1] == es[j]);
        assert(keys_unique(rest)) by {
            assert forall|a: int, b: int| 0 <= a < b < rest.len() implies #[trigger] rest[a].0
                != #[trigger] rest[b].0 by {
                assert(rest[a] == es[a + 1] && rest[b] == es[b + 1]);
            }
        }
        lemma_unique_index(rest, j - 1, v);
        assert(seq![es[0]] + rest.update(j - 1, (k, v)) == es.update(j, (k, v)));
    }
}

/// A key listed as present has an entry that holds something.
pub proof fn lemma_present_index(es: Entries, i: int) -> (j: int)
    requires
        0 <= i < present_keys(es).len(),
    ensures
        0 <= j < es.len(),
        es[j].0 == present_keys(es)[i],
        es[j].1 != Node::Empty,
    decreases es.len(),
{
    if es[0].1 == Node::Empty {
        let j = lemma_present_index(es.drop_first(), i);
        j + 1
    } else if i == 0 {
        0
    } else {
        let j = lemma_present_index(es.drop_first(), i - 1);
        j + 1
    }
}

/// Every entry that holds something is listed as present.
pub proof fn lemma_present_contains(es: Entries, j: int)
    requires
        0 <= j < es.len(),
        es[j].1 != Node::Empty,
    ensures
        present_keys(es).contains(es[j].0),
    decreases es.len(),
{
    if j == 0 {
        assert(present_keys(es)[0] == es[0].0);
    } else {
        let rest = es.drop_first();
        assert(rest[j - 1] == es[j]);
        lemma_present_contains(rest, j - 1);
        let q = choose|q: int| 0 <= q < present_keys(rest).len() && present_keys(rest)[q] == es[j].0;
        if es[0].1 != Node::Empty {
            assert(present_keys(es)[q + 1] == es[j].0);
        }
    }
}

/// A key that holds something is held by one of the entries.
pub proof fn lemma_lookup_index(es: Entries, k: Seq<char>) -> (j: int)
    requires
        lookup(es, k) != Node::Empty,
    ensures
        0 <= j < es.len(),
        es[j].0 == k,
        es[j].1 == lookup(es, k),
    decreases es.len(),
{
    if es[0].0 == k {
        0
    } else {
        let j = lemma_lookup_index(es.drop_first(), k);
        j + 1
    }
}

/// Storing under one key leaves what the others hold.
pub proof fn lemma_lookup_put_other(es: Entries, k: Seq<char>, v: Node, k2: Seq<char>)
    requires
        k != k2,
    ensures
        lookup(put(es, k, v), k2) == lookup(es, k2),
    decreases es.len(),
{
    if es.len() == 0 {
        assert(seq![(k, v)].drop_first() =~= Seq::<(Seq<char>, Node)>::empty());
        assert(lookup(Seq::<(Seq<char>, Node)>::empty(), k2) == Node::Empty);
    } else if es[0].0 == k {
        assert(es.update(0, (k, v)).drop_first() =~= es.drop_first());
    } else {
        lemma_lookup_put_other(es.drop_first(), k, v, k2);
        assert((seq![es[0]] + put(es.drop_first(), k, v)).drop_first() =~= put(es.drop_first(), k, v));
    }
}

/// Removing a key that no entry has changes nothing.
pub proof fn lemma_without_absent(es: Entries, k: Seq<char>)
    requires
        !has_key(es, k),
    ensures
        without(es, k) == es,
    decreases es.len(),
{
    if es.len() > 0 {
        assert(es[0].0 != k);
        assert(!has_key(es.drop_first(), k)) by {
            if has_key(es.drop_first(), k) {
                let i = choose|i: int| 0 <= i < es.drop_first().len() && #[trigger] es.drop_first()[i].0 == k;
                assert(es[i + 1].0 == k);
            }
        }
        lemma_without_absent(es.drop_first(), k);
        assert(es == seq![es[0]] + es.drop_first());
    }
}

/// After a removal, a key is found only where it was before and was not the
/// key removed.
pub proof fn lemma_without_has_key(es: Entries, k: Seq<char>, k2: Seq<char>)
    ensures
        has_key(without(es, k), k2) ==> has_key(es, k2) && k2 != k,
    decreases es.len(),
{
    if es.len() > 0 {
        let rest = es.drop_first();
        lemma_without_has_key(rest, k, k2);
        if has_key(without(es, k), k2) {
            let w = without(es, k);
            let i = choose|i: int| 0 <= i < w.len() && #[trigger] w[i].0 == k2;
            if es[0].0 == k {
                assert(w == without(rest, k));
                let q = choose|q: int| 0 <= q < rest.len() && #[trigger] rest[q].0 == k2;
                assert(es[q + 1].0 == k2);
            } else if i == 0 {
                assert(es[0].0 == k2);
            } else {
                assert(w.drop_first() == without(rest, k));
                assert(without(rest, k)[i - 1].0 == k2);
                let q = choose|q: int| 0 <= q < rest.len() && #[trigger] rest[q].0 == k2;
                assert(es[q + 1].0 == k2);
            }
        }
    }
}

/// Removing a key undoes storing under it, whatever it held before.
pub proof fn lemma_without_put(es: Entries, k: Seq<char>, v: Node)
    ensures
        without(put(es, k, v), k) == without(es, k),
    decreases es.len(),
{
    if es.len() == 0 {
        assert(seq![(k, v)].drop_first() =~= es);
    } else if es[0].0 == k {
        assert(es.update(0, (k, v)).drop_first() =~= es.drop_first());
    } else {
        lemma_without_put(es.drop_first(), k, v);
        assert((seq![es[0]] + put(es.drop_first(), k, v)).drop_first() =~= put(es.drop_first(), k, v));
    }
}

/// Storing under a key that no entry has appends an entry.
pub proof fn lemma_put_absent(es: Entries, k: Seq<char>, v: Node)
    requires
        !has_key(es, k),
    ensures
        put(es, k, v) == es.push((k, v)),
    decreases es.len(),
{
    if es.len() == 0 {
        assert(seq![(k, v)] =~= es.push((k, v)));
    } else {
        assert(es[0].0 != k);
        let rest = es.drop_first();
        assert(!has_key(rest, k)) by {
            if has_key(rest, k) {
                let i = choose|i: int| 0 <= i < rest.len() && #[trigger] rest[i].0 == k;
                assert(es[i + 1].0 == k);
            }
        }
        lemma_put_absent(rest, k, v);
        assert(seq![es[0]] + rest.push((k, v)) =~= es.push((k, v)));
    }
}

/// An appended entry that holds something is listed last among the present.
pub proof fn lemma_present_push(es: Entries, e: (Seq<char>, Node))
    requires
        e.1 != Node::Empty,
    ensures
        present_keys(es.push(e)) == present_keys(es).push(e.0),
    decreases es.len(),
{
    if es.len() == 0 {
        assert(es.push(e).drop_first() =~= es);
        assert(seq![e.0] + Seq::<Seq<char>>::empty() =~= Seq::<Seq<char>>::empty().push(e.0));
    } else {
        lemma_present_push(es.drop_first(), e);
        assert(es.push(e).drop_first() =~= es.drop_first().push(e));
        assert(es.push(e)[0] == es[0]);
        if es[0].1 != Node::Empty {
            assert(seq![es[0].0] + present_keys(es.drop_first()).push(e.0) =~= (seq![es[0].0]
                + present_keys(es.drop_first())).push(e.0));
        }
    }
}

/// Removing an appended key that no other entry has gives back the entries.
pub proof fn lemma_without_push_absent(es: Entries, k: Seq<char>, x: Node)
    requires
        !has_key(es, k),
    ensures
        without(es.push((k, x)), k) == es,
{
    lemma_put_absent(es, k, x);
    lemma_without_put(es, k, x);
    lemma_without_absent(es, k);
}

/// Where no entry is a placeholder, a key that some entry has holds something.
pub proof fn lemma_lookup_has(es: Entries, k: Seq<char>)
    requires
        has_key(es, k),
        forall|i: int| 0 <= i < es.len() ==> #[trigger] es[i].1 != Node::Empty,
    ensures
        lookup(es, k) != Node::Empty,
    decreases es.len(),
{
    if es[0].0 != k {
        let rest = es.drop_first();
        let i = choose|i: int| 0 <= i < es.len() && #[trigger] es[i].0 == k;
        assert(rest[i - 1].0 == k);
        assert forall|m: int| 0 <= m < rest.len() implies #[trigger] rest[m].1 != Node::Empty by {
            assert(rest[m] == es[m + 1]);
        }
        lemma_lookup_has(rest, k);
    }
}

/// Where keys are unique, no key is listed twice as present.
pub proof fn lemma_present_unique(es: Entries)
    requires
        keys_unique(es),
    ensures
        forall|a: int, b: int|
            0 <= a < b < present_keys(es).len() ==> #[trigger] present_keys(es)[a]
                != #[trigger] present_keys(es)[b],
    decreases es.len(),
{
    if es.len() > 0 {
        let rest = es.drop_first();
        assert(keys_unique(rest)) by {
            assert forall|a: int, b: int| 0 <= a < b < rest.len() implies #[trigger] rest[a].0
                != #[trigger] rest[b].0 by {
                assert(rest[a] == es[a + 1] && rest[b] == es[b + 1]);
            }
        }
        lemma_present_unique(rest);
        if es[0].1 != Node::Empty {
            let ps = present_keys(es);
            let pr = present_keys(rest);
            assert forall|a: int, b: int| 0 <= a < b < ps.len() implies #[trigger] ps[a]
                != #[trigger] ps[b] by {
                if a == 0 {
                    let j = lemma_present_index(rest, b - 1);
                    assert(rest[j] == es[j + 1]);
                    assert(ps[b] == pr[b - 1]);
                } else {
                    assert(ps[a] == pr[a - 1] && ps[b] == pr[b - 1]);
                }
            }
        }
    }
}

/// Removing one key keeps every other key.
pub proof fn lemma_without_keeps(es: Entries, k: Seq<char>, k2: Seq<char>)
    requires
        has_key(es, k2),
        k2 != k,
    ensures
        has_key(without(es, k), k2),
    decreases es.len(),
{
    let rest = es.drop_first();
    if es[0].0 == k2 {
        assert((seq![es[0]] + without(rest, k))[0].0 == k2);
    } else {
        let i = choose|i: int| 0 <= i < es.len() && #[trigger] es[i].0 == k2;
        assert(rest[i - 1].0 == k2);
        lemma_without_keeps(rest, k, k2);
        let w = without(rest, k);
        let q = choose|q: int| 0 <= q < w.len() && #[trigger] w[q].0 == k2;
        if es[0].0 != k {
            assert((seq![es[0]] + w)[q + 1].0 == k2);
        }
    }
}

} // verus!
