//! TOML documents of `toml_edit`, seen through their shape.
//!
//! A shape records what is reached from a document, table or value through tables and inline
//! tables, each place written as the path of keys that leads to it: the tables (`Item::Table`)
//! with the keys they hold, the strings and the integers. The empty path is the value itself.
//! Arrays and their contents are carried along but not recorded.

use vstd::prelude::*;

use toml_edit::{DocumentMut, InlineTable, Item, Table};

verus! {

#[verifier::external_type_specification]
#[verifier::external_body]
pub struct ExDocumentMut(DocumentMut);

#[verifier::external_type_specification]
#[verifier::external_body]
pub struct ExTable(Table);

#[verifier::external_type_specification]
#[verifier::external_body]
pub struct ExInlineTable(InlineTable);

#[verifier::external_type_specification]
#[verifier::external_body]
pub struct ExItem(Item);

/// The shape of a TOML value: the paths of its tables with each table's keys (entries that hold
/// nothing included), the paths of its strings with their text, and those of its integers.
pub type TomlShape = (
    Map<Seq<Seq<char>>, Set<Seq<char>>>,
    Map<Seq<Seq<char>>, Seq<char>>,
    Map<Seq<Seq<char>>, i64>,
);

/// The shape of a document, its root table at the empty path.
pub uninterp spec fn doc_shape(d: DocumentMut) -> TomlShape;

/// The shape of a table, itself at the empty path.
pub uninterp spec fn table_shape(t: Table) -> TomlShape;

/// The shape of an inline table; as it is no `Item::Table`, it has no table at the empty path.
pub uninterp spec fn inline_shape(t: InlineTable) -> TomlShape;

/// The shape of an item.
pub uninterp spec fn item_shape(i: Item) -> TomlShape;

/// The shape of the document that `toml_edit` parses from a text; none where it refuses it.
pub uninterp spec fn toml_parsed(text: Seq<char>) -> Option<TomlShape>;

/// The text that `toml_edit` writes for a document.
pub uninterp spec fn toml_text(d: DocumentMut) -> Seq<char>;

/// Whether the path `p` begins the path `q`.
pub open spec fn has_prefix(q: Seq<Seq<char>>, p: Seq<Seq<char>>) -> bool {
    p.len() <= q.len() && q.subrange(0, p.len() as int) == p
}

/// The entries of `m` that do not lie at or below `p`.
pub open spec fn prune<V>(m: Map<Seq<Seq<char>>, V>, p: Seq<Seq<char>>) -> Map<Seq<Seq<char>>, V> {
    Map::new(|q: Seq<Seq<char>>| m.contains_key(q) && !has_prefix(q, p), |q: Seq<Seq<char>>| m[q])
}

/// The entries of `m`, with those of `x` placed below `p`.
pub open spec fn graft<V>(m: Map<Seq<Seq<char>>, V>, p: Seq<Seq<char>>, x: Map<Seq<Seq<char>>, V>) -> Map<Seq<Seq<char>>, V> {
    Map::new(
        |q: Seq<Seq<char>>| m.contains_key(q) || (has_prefix(q, p) && x.contains_key(q.subrange(p.len() as int, q.len() as int))),
        |q: Seq<Seq<char>>|
            if has_prefix(q, p) && x.contains_key(q.subrange(p.len() as int, q.len() as int)) {
                x[q.subrange(p.len() as int, q.len() as int)]
            } else {
                m[q]
            },
    )
}

/// The entries of `m` at or below `p`, with `p` taken off their paths.
pub open spec fn below<V>(m: Map<Seq<Seq<char>>, V>, p: Seq<Seq<char>>) -> Map<Seq<Seq<char>>, V> {
    Map::new(|q: Seq<Seq<char>>| m.contains_key(p + q), |q: Seq<Seq<char>>| m[p + q])
}

/// What lies at or below `p`, as the shape of a value of its own.
pub open spec fn shape_below(s: TomlShape, p: Seq<Seq<char>>) -> TomlShape {
    (below(s.0, p), below(s.1, p), below(s.2, p))
}

/// The shape after the entry `key` of the table at `p` is removed.
pub open spec fn shape_remove(s: TomlShape, p: Seq<Seq<char>>, key: Seq<char>) -> TomlShape {
    let q = p.push(key);
    let t = prune(s.0, q);
    (
        if t.contains_key(p) { t.insert(p, t[p].remove(key)) } else { t },
        prune(s.1, q),
        prune(s.2, q),
    )
}

/// The shape after a value of shape `x` is put at the entry `key` of the table (or inline
/// table) at `p`, in place of what was there.
pub open spec fn shape_put(s: TomlShape, p: Seq<Seq<char>>, key: Seq<char>, x: TomlShape) -> TomlShape {
    let q = p.push(key);
    let t = graft(prune(s.0, q), q, x.0);
    (
        if t.contains_key(p) { t.insert(p, t[p].insert(key)) } else { t },
        graft(prune(s.1, q), q, x.1),
        graft(prune(s.2, q), q, x.2),
    )
}

/// The shape of an empty table.
pub open spec fn empty_table_shape() -> TomlShape {
    (map![seq![] => set![]], map![], map![])
}

/// The shape of an empty inline table.
pub open spec fn empty_inline_shape() -> TomlShape {
    (map![], map![], map![])
}

/// The shape of a string.
pub open spec fn string_shape(v: Seq<char>) -> TomlShape {
    (map![], map![seq![] => v], map![])
}

/// The shape of an integer.
pub open spec fn integer_shape(v: i64) -> TomlShape {
    (map![], map![], map![seq![] => v])
}

/// The keys of a table as characters.
pub open spec fn key_views(ks: Seq<String>) -> Seq<Seq<char>> {
    ks.map_values(|k: String| k@)
}

/// `DocumentMut`'s `FromStr`: the document parsed from the text, or none where the text is no
/// TOML.
#[verifier::external_body]
pub(crate) fn toml_parse(text: &str) -> (r: Option<DocumentMut>)
    ensures
        match r {
            Some(d) => toml_parsed(text@) == Some(doc_shape(d)),
            None => toml_parsed(text@) is None,
        },
{
    text.parse::<DocumentMut>().ok()
}

/// `DocumentMut`'s `Display`: the document's text.
#[verifier::external_body]
pub(crate) fn toml_to_text(doc: &DocumentMut) -> (r: String)
    ensures
        r@ == toml_text(*doc),
{
    doc.to_string()
}

/// `Table::get` at the root, then `Item::as_integer`: the integer at the root's entry `key`.
#[verifier::external_body]
pub(crate) fn toml_get_integer(doc: &DocumentMut, key: &str) -> (r: Option<i64>)
    ensures
        r == (if doc_shape(*doc).2.contains_key(seq![key@]) {
            Some(doc_shape(*doc).2[seq![key@]])
        } else {
            None
        }),
{
    doc.get(key)?.as_integer()
}

/// `Table::insert` at the root of `toml_edit::value(v)`: the integer `v` at the entry `key`.
#[verifier::external_body]
pub(crate) fn toml_set_integer(doc: &mut DocumentMut, key: &str, v: i64)
    ensures
        doc_shape(*final(doc)) == shape_put(doc_shape(*old(doc)), seq![], key@, integer_shape(v)),
{
    doc.insert(key, toml_edit::value(v));
}

/// The keys that `Table::iter` lists of the table at `[a]`, reached through `Table::get` and
/// `Item::as_table`; none where no table is there. `Table::iter` leaves out entries that hold
/// nothing, so the keys listed are some of the table's keys, among them every key through whose
/// entry a table lies (every table lies below entries that are tables); which of the other keys
/// hold nothing is left unsaid.
#[verifier::external_body]
pub(crate) fn toml_keys1(doc: &DocumentMut, a: &str) -> (r: Option<Vec<String>>)
    ensures
        ({
            let t = doc_shape(*doc).0;
            let p = seq![a@];
            match r {
                Some(ks) => t.contains_key(p) && key_views(ks@).no_duplicates()
                    && (forall|k: Seq<char>| #[trigger] key_views(ks@).contains(k) ==> t[p].contains(k))
                    && (forall|q: Seq<Seq<char>>|
                        #[trigger] t.contains_key(q) && q.len() > p.len() && q.subrange(0, p.len() as int) == p
                            ==> key_views(ks@).contains(q[p.len() as int])),
                None => !t.contains_key(p),
            }
        }),
{
    let t = doc.get(a)?.as_table()?;
    Some(t.iter().map(|(k, _)| k.to_string()).collect())
}

/// The keys that `Table::iter` lists of the table at `[a, b, c]`, reached through tables as in
/// `toml_keys1`, with the same reading.
#[verifier::external_body]
pub(crate) fn toml_keys3(doc: &DocumentMut, a: &str, b: &str, c: &str) -> (r: Option<Vec<String>>)
    ensures
        ({
            let t = doc_shape(*doc).0;
            let p = seq![a@, b@, c@];
            match r {
                Some(ks) => t.contains_key(p) && key_views(ks@).no_duplicates()
                    && (forall|k: Seq<char>| #[trigger] key_views(ks@).contains(k) ==> t[p].contains(k))
                    && (forall|q: Seq<Seq<char>>|
                        #[trigger] t.contains_key(q) && q.len() > p.len() && q.subrange(0, p.len() as int) == p
                            ==> key_views(ks@).contains(q[p.len() as int])),
                None => !t.contains_key(p),
            }
        }),
{
    let t = doc.get(a)?.as_table()?.get(b)?.as_table()?.get(c)?.as_table()?;
    Some(t.iter().map(|(k, _)| k.to_string()).collect())
}

/// `Table::remove` of the entry `key` of the table at `[a, b, c, d]`, reached through tables:
/// the item that was there, and none where no table is there or it has no such entry.
#[verifier::external_body]
pub(crate) fn toml_remove4(doc: &mut DocumentMut, a: &str, b: &str, c: &str, d: &str, key: &str) -> (r: Option<Item>)
    ensures
        ({
            let s = doc_shape(*old(doc));
            let p = seq![a@, b@, c@, d@];
            &&& (r is Some <==> (s.0.contains_key(p) && s.0[p].contains(key@)))
            &&& (r is None ==> *final(doc) == *old(doc))
            &&& (r matches Some(it) ==> item_shape(it) == shape_below(s, p.push(key@))
                && doc_shape(*final(doc)) == shape_remove(s, p, key@))
        }),
{
    let t = doc.get_mut(a)?.as_table_mut()?.get_mut(b)?.as_table_mut()?.get_mut(c)?.as_table_mut()?;
    t.get_mut(d)?.as_table_mut()?.remove(key)
}

/// `Table::insert` of `Item::Table(t)` at the entry `key` of the table at `[a, b, c, d]`,
/// reached through tables; none, and nothing changed, where no table is there.
#[verifier::external_body]
pub(crate) fn toml_insert_table4(doc: &mut DocumentMut, a: &str, b: &str, c: &str, d: &str, key: &str, t: Table) -> (r: Option<()>)
    ensures
        ({
            let s = doc_shape(*old(doc));
            let p = seq![a@, b@, c@, d@];
            &&& (r is Some <==> s.0.contains_key(p))
            &&& (r is None ==> *final(doc) == *old(doc))
            &&& (r is Some ==> doc_shape(*final(doc)) == shape_put(s, p, key@, table_shape(t)))
        }),
{
    let tbl = doc.get_mut(a)?.as_table_mut()?.get_mut(b)?.as_table_mut()?.get_mut(c)?.as_table_mut()?;
    tbl.get_mut(d)?.as_table_mut()?.insert(key, Item::Table(t));
    Some(())
}

/// `Table::insert` of `Item::Value(Value::InlineTable(t))` at the entry `key` of the table at
/// `[a, b, c, d]`, reached through tables; none, and nothing changed, where no table is there.
#[verifier::external_body]
pub(crate) fn toml_insert_inline4(doc: &mut DocumentMut, a: &str, b: &str, c: &str, d: &str, key: &str, t: InlineTable) -> (r: Option<()>)
    ensures
        ({
            let s = doc_shape(*old(doc));
            let p = seq![a@, b@, c@, d@];
            &&& (r is Some <==> s.0.contains_key(p))
            &&& (r is None ==> *final(doc) == *old(doc))
            &&& (r is Some ==> doc_shape(*final(doc)) == shape_put(s, p, key@, inline_shape(t)))
        }),
{
    let tbl = doc.get_mut(a)?.as_table_mut()?.get_mut(b)?.as_table_mut()?.get_mut(c)?.as_table_mut()?;
    let value = toml_edit::Value::InlineTable(t);
    tbl.get_mut(d)?.as_table_mut()?.insert(key, Item::Value(value));
    Some(())
}

/// `Table::new`: an empty table.
#[verifier::external_body]
pub(crate) fn toml_table_new() -> (r: Table)
    ensures
        table_shape(r) == empty_table_shape(),
{
    Table::new()
}

/// `Table::insert` of `toml_edit::value(v)`: the string `v` at the entry `key`.
#[verifier::external_body]
pub(crate) fn toml_table_insert_str(t: &mut Table, key: &str, v: &str)
    ensures
        table_shape(*final(t)) == shape_put(table_shape(*old(t)), seq![], key@, string_shape(v@)),
{
    t.insert(key, toml_edit::value(v));
}

/// `Table::insert`: the item at the entry `key`.
#[verifier::external_body]
pub(crate) fn toml_table_insert_item(t: &mut Table, key: &str, item: Item)
    ensures
        table_shape(*final(t)) == shape_put(table_shape(*old(t)), seq![], key@, item_shape(item)),
{
    t.insert(key, item);
}

/// `InlineTable::new`: an empty inline table.
#[verifier::external_body]
pub(crate) fn toml_inline_new() -> (r: InlineTable)
    ensures
        inline_shape(r) == empty_inline_shape(),
{
    InlineTable::new()
}

/// `InlineTable::insert` of the string `v` at the entry `key`.
#[verifier::external_body]
pub(crate) fn toml_inline_insert_str(t: &mut InlineTable, key: &str, v: &str)
    ensures
        inline_shape(*final(t)) == shape_put(inline_shape(*old(t)), seq![], key@, string_shape(v@)),
{
    t.insert(key, v.into());
}

} // verus!
