//! The mathematical model of the relational store.
//!
//! The store's tables are modelled as sequences of ghost rows ([`DbV`]), and
//! every operation of [`crate::store::DiaryDB`] is specified against the
//! transition functions here: [`save_tx`] for the upsert with tag
//! reconciliation, [`delete_tx`] for the manual cascade, and the query
//! functions for the read paths. [`wf_db`] is the well-formedness invariant
//! every operation preserves: unique identifiers, unique tag names,
//! referential integrity of taggings and relationships, and the listing
//! order of entries.

use vstd::prelude::*;

verus! {

/// An entry row: identifier, title, sealed body envelope, and timestamps.
#[verifier::ext_equal]
pub struct EntryV {
    pub id: Seq<char>,
    pub title: Seq<char>,
    pub body: Seq<char>,
    pub created_at: Seq<char>,
    pub updated_at: Seq<char>,
}

/// A tag row: identifier and (unique) name.
#[verifier::ext_equal]
pub struct TagV {
    pub id: Seq<char>,
    pub name: Seq<char>,
}

/// A tagging row: the many-to-many assignment of a tag to an entry.
#[verifier::ext_equal]
pub struct TaggingV {
    pub diary_id: Seq<char>,
    pub tag_id: Seq<char>,
}

/// A relationship row: a directed, typed link between two entries.
#[verifier::ext_equal]
pub struct RelV {
    pub id: Seq<char>,
    pub parent_id: Seq<char>,
    pub child_id: Seq<char>,
    pub relationship_type: Seq<char>,
    pub created_at: Seq<char>,
}

/// The whole store: the four tables.
#[verifier::ext_equal]
pub struct DbV {
    pub entries: Seq<EntryV>,
    pub tags: Seq<TagV>,
    pub taggings: Seq<TaggingV>,
    pub relationships: Seq<RelV>,
}

/// A graph-projection property: one key/value pair of a node's bag.
#[verifier::ext_equal]
pub struct PropV {
    pub key: Seq<char>,
    pub value: Seq<char>,
}

/// A graph-projection node.
#[verifier::ext_equal]
pub struct NodeV {
    pub id: Seq<char>,
    pub label: Seq<char>,
    pub node_type: Seq<char>,
    pub properties: Seq<PropV>,
}

/// A graph-projection edge.
#[verifier::ext_equal]
pub struct EdgeV {
    pub id: Seq<char>,
    pub source: Seq<char>,
    pub target: Seq<char>,
    pub label: Seq<char>,
}

/// Lexicographic order on character strings, by code point; this is the
/// order the row store's text columns sort in.
pub open spec fn lex_le(a: Seq<char>, b: Seq<char>) -> bool
    decreases a.len(),
{
    if a.len() == 0 {
        true
    } else if b.len() == 0 {
        false
    } else if (a[0] as u32) < (b[0] as u32) {
        true
    } else if (a[0] as u32) > (b[0] as u32) {
        false
    } else {
        lex_le(a.drop_first(), b.drop_first())
    }
}

/// `lex_le` is total.
pub proof fn lemma_lex_le_total(a: Seq<char>, b: Seq<char>)
    ensures
        lex_le(a, b) || lex_le(b, a),
    decreases a.len(),
{
    if a.len() == 0 || b.len() == 0 {
    } else if (a[0] as u32) == (b[0] as u32) {
        lemma_lex_le_total(a.drop_first(), b.drop_first());
    }
}

/// `lex_le` is transitive.
pub proof fn lemma_lex_le_trans(a: Seq<char>, b: Seq<char>, c: Seq<char>)
    requires
        lex_le(a, b),
        lex_le(b, c),
    ensures
        lex_le(a, c),
    decreases a.len(),
{
    if a.len() == 0 {
    } else if b.len() == 0 {
    } else if c.len() == 0 {
    } else {
        if (a[0] as u32) == (b[0] as u32) && (b[0] as u32) == (c[0] as u32) {
            lemma_lex_le_trans(a.drop_first(), b.drop_first(), c.drop_first());
        }
    }
}

/// Order between neighbours extends to the whole table.
pub proof fn lemma_adjacent_sorted(es: Seq<EntryV>)
    requires
        forall|k: int|
            0 <= k < es.len() - 1 ==> lex_le(
                #[trigger] es[k + 1].created_at,
                es[k].created_at,
            ),
    ensures
        entries_sorted(es),
{
    assert forall|i: int, j: int| 0 <= i < j < es.len() implies lex_le(
        #[trigger] es[j].created_at,
        #[trigger] es[i].created_at,
    ) by {
        lemma_sorted_span(es, i, j);
    }
}

proof fn lemma_sorted_span(es: Seq<EntryV>, i: int, j: int)
    requires
        forall|k: int|
            0 <= k < es.len() - 1 ==> lex_le(
                #[trigger] es[k + 1].created_at,
                es[k].created_at,
            ),
        0 <= i < j < es.len(),
    ensures
        lex_le(es[j].created_at, es[i].created_at),
    decreases j - i,
{
    if j == i + 1 {
        assert(lex_le(es[i + 1].created_at, es[i].created_at));
    } else {
        lemma_sorted_span(es, i, j - 1);
        assert(lex_le(es[(j - 1) + 1].created_at, es[j - 1].created_at));
        lemma_lex_le_trans(es[j].created_at, es[j - 1].created_at, es[i].created_at);
    }
}

/// Some entry has this identifier.
pub open spec fn has_entry(es: Seq<EntryV>, id: Seq<char>) -> bool {
    exists|i: int| 0 <= i < es.len() && es[i].id == id
}

/// The entry with this identifier (meaningful under unique identifiers).
pub open spec fn entry_with(es: Seq<EntryV>, id: Seq<char>) -> EntryV {
    es[choose|i: int| 0 <= i < es.len() && es[i].id == id]
}

/// Some tag has this name.
pub open spec fn has_tag_name(ts: Seq<TagV>, name: Seq<char>) -> bool {
    exists|i: int| 0 <= i < ts.len() && ts[i].name == name
}

/// The tag with this name (meaningful under unique names).
pub open spec fn tag_by_name(ts: Seq<TagV>, name: Seq<char>) -> TagV {
    ts[choose|i: int| 0 <= i < ts.len() && ts[i].name == name]
}

/// Some tag has this identifier.
pub open spec fn has_tag_id(ts: Seq<TagV>, id: Seq<char>) -> bool {
    exists|i: int| 0 <= i < ts.len() && ts[i].id == id
}

/// The tag with this identifier (meaningful under unique identifiers).
pub open spec fn tag_by_id(ts: Seq<TagV>, id: Seq<char>) -> TagV {
    ts[choose|i: int| 0 <= i < ts.len() && ts[i].id == id]
}

/// The tagging table holds this entry/tag pair.
pub open spec fn has_tagging(tgs: Seq<TaggingV>, eid: Seq<char>, tid: Seq<char>) -> bool {
    exists|i: int| 0 <= i < tgs.len() && tgs[i].diary_id == eid && tgs[i].tag_id == tid
}

/// Some relationship has this identifier.
pub open spec fn has_rel_id(rs: Seq<RelV>, id: Seq<char>) -> bool {
    exists|i: int| 0 <= i < rs.len() && rs[i].id == id
}

/// Entries are ordered newest first by `created_at` (non-increasing in the
/// text order).
pub open spec fn entries_sorted(es: Seq<EntryV>) -> bool {
    forall|i: int, j: int| 0 <= i < j < es.len() ==> lex_le(#[trigger] es[j].created_at, #[trigger] es[i].created_at)
}

/// Well-formedness of the whole store.
pub open spec fn wf_db(d: DbV) -> bool {
    &&& forall|i: int, j: int| 0 <= i < j < d.entries.len() ==> (#[trigger] d.entries[i].id) != (
    #[trigger] d.entries[j].id)
    &&& forall|i: int, j: int| 0 <= i < j < d.tags.len() ==> (#[trigger] d.tags[i].id) != (
    #[trigger] d.tags[j].id)
    &&& forall|i: int, j: int| 0 <= i < j < d.tags.len() ==> (#[trigger] d.tags[i].name) != (
    #[trigger] d.tags[j].name)
    &&& forall|i: int, j: int| 0 <= i < j < d.relationships.len() ==> (
    #[trigger] d.relationships[i].id) != (#[trigger] d.relationships[j].id)
    &&& forall|i: int, j: int|
        0 <= i < j < d.taggings.len() ==> !((#[trigger] d.taggings[i]).diary_id == (
        #[trigger] d.taggings[j]).diary_id && d.taggings[i].tag_id == d.taggings[j].tag_id)
    &&& forall|i: int|
        0 <= i < d.taggings.len() ==> has_entry(d.entries, (#[trigger] d.taggings[i]).diary_id)
            && has_tag_id(d.tags, d.taggings[i].tag_id)
    &&& forall|i: int|
        0 <= i < d.relationships.len() ==> has_entry(
            d.entries,
            (#[trigger] d.relationships[i]).parent_id,
        ) && has_entry(d.entries, d.relationships[i].child_id)
    &&& entries_sorted(d.entries)
}

/// Where a new entry with this `created_at` goes: before the first existing
/// entry that is not newer than it.
pub open spec fn insert_pos(es: Seq<EntryV>, ts: Seq<char>) -> int
    decreases es.len(),
{
    if es.len() == 0 {
        0
    } else if lex_le(es[0].created_at, ts) {
        0
    } else {
        1 + insert_pos(es.drop_first(), ts)
    }
}

pub proof fn lemma_insert_pos_props(es: Seq<EntryV>, ts: Seq<char>)
    ensures
        0 <= insert_pos(es, ts) <= es.len(),
        forall|k: int| 0 <= k < insert_pos(es, ts) ==> !lex_le(#[trigger] es[k].created_at, ts),
        insert_pos(es, ts) < es.len() ==> lex_le(es[insert_pos(es, ts)].created_at, ts),
    decreases es.len(),
{
    if es.len() == 0 {
    } else if lex_le(es[0].created_at, ts) {
    } else {
        lemma_insert_pos_props(es.drop_first(), ts);
        let ip = insert_pos(es, ts);
        assert forall|k: int| 0 <= k < ip implies !lex_le(#[trigger] es[k].created_at, ts) by {
            if k > 0 {
                assert(es[k] == es.drop_first()[k - 1]);
            }
        }
        if ip < es.len() {
            assert(es[ip] == es.drop_first()[ip - 1]);
        }
    }
}

/// The entry table after an insert at the sorted position.
pub open spec fn insert_entry(es: Seq<EntryV>, e: EntryV) -> Seq<EntryV> {
    es.insert(insert_pos(es, e.created_at), e)
}

/// The entry table after an update of the row with identifier `id`: its
/// title, body and `updated_at` change, everything else stays.
pub open spec fn update_entries(
    es: Seq<EntryV>,
    id: Seq<char>,
    title: Seq<char>,
    body: Seq<char>,
    now: Seq<char>,
) -> Seq<EntryV> {
    Seq::new(
        es.len(),
        |i: int|
            if es[i].id == id {
                EntryV {
                    id: es[i].id,
                    title: title,
                    body: body,
                    created_at: es[i].created_at,
                    updated_at: now,
                }
            } else {
                es[i]
            },
    )
}

/// A tagging row is added only when the entry exists (referential integrity)
/// and the pair is not already present (the conflict-tolerant insert).
pub open spec fn add_tagging(
    tgs: Seq<TaggingV>,
    entry_exists: bool,
    eid: Seq<char>,
    tid: Seq<char>,
) -> Seq<TaggingV> {
    if entry_exists && !has_tagging(tgs, eid, tid) {
        tgs.push(TaggingV { diary_id: eid, tag_id: tid })
    } else {
        tgs
    }
}

/// Reconcile the tag list of an entry, left to right: each name is looked up,
/// created with the next minted identifier when absent, and assigned to the
/// entry. `None` when a minted identifier collides with an existing tag
/// identifier.
pub open spec fn apply_tags(
    tags: Seq<TagV>,
    tgs: Seq<TaggingV>,
    entry_exists: bool,
    eid: Seq<char>,
    names: Seq<Seq<char>>,
    mints: Seq<Seq<char>>,
) -> Option<(Seq<TagV>, Seq<TaggingV>)>
    decreases names.len(),
{
    if names.len() == 0 {
        Some((tags, tgs))
    } else {
        let name = names[0];
        if has_tag_name(tags, name) {
            let tid = tag_by_name(tags, name).id;
            apply_tags(
                tags,
                add_tagging(tgs, entry_exists, eid, tid),
                entry_exists,
                eid,
                names.drop_first(),
                mints.drop_first(),
            )
        } else if has_tag_id(tags, mints[0]) {
            None
        } else {
            apply_tags(
                tags.push(TagV { id: mints[0], name: name }),
                add_tagging(tgs, entry_exists, eid, mints[0]),
                entry_exists,
                eid,
                names.drop_first(),
                mints.drop_first(),
            )
        }
    }
}

/// The identifier a save returns: the given one, or the freshly minted one.
pub open spec fn save_id(existing: Option<Seq<char>>, fresh_id: Seq<char>) -> Seq<char> {
    match existing {
        Some(x) => x,
        None => fresh_id,
    }
}

/// One `save` as a transition of the whole store. With an identifier: update
/// the row (a no-op when it does not exist) and replace its tag set. Without:
/// insert a fresh row at its sorted position, refusing a colliding minted
/// identifier. Then reconcile the tags. `None` means an identifier collision;
/// the store is then left unchanged.
pub open spec fn save_tx(
    d: DbV,
    existing: Option<Seq<char>>,
    fresh_id: Seq<char>,
    title: Seq<char>,
    body: Seq<char>,
    now: Seq<char>,
    names: Seq<Seq<char>>,
    mints: Seq<Seq<char>>,
) -> Option<DbV> {
    match existing {
        Some(x) => {
            let es = update_entries(d.entries, x, title, body, now);
            let tgs0 = d.taggings.filter(|t: TaggingV| t.diary_id != x);
            match apply_tags(d.tags, tgs0, has_entry(d.entries, x), x, names, mints) {
                None => None,
                Some((ts2, tg2)) => Some(
                    DbV { entries: es, tags: ts2, taggings: tg2, relationships: d.relationships },
                ),
            }
        },
        None => {
            if has_entry(d.entries, fresh_id) {
                None
            } else {
                let e = EntryV {
                    id: fresh_id,
                    title: title,
                    body: body,
                    created_at: now,
                    updated_at: now,
                };
                let es = insert_entry(d.entries, e);
                match apply_tags(d.tags, d.taggings, true, fresh_id, names, mints) {
                    None => None,
                    Some((ts2, tg2)) => Some(
                        DbV {
                            entries: es,
                            tags: ts2,
                            taggings: tg2,
                            relationships: d.relationships,
                        },
                    ),
                }
            }
        },
    }
}

/// One `delete` as a transition: the manual cascade. Relationships touching
/// the entry go first, then its taggings, then the row itself.
pub open spec fn delete_tx(d: DbV, id: Seq<char>) -> DbV {
    DbV {
        entries: d.entries.filter(|e: EntryV| e.id != id),
        tags: d.tags,
        taggings: d.taggings.filter(|t: TaggingV| t.diary_id != id),
        relationships: d.relationships.filter(
            |r: RelV| r.parent_id != id && r.child_id != id,
        ),
    }
}

/// The taggings of one entry, in table order.
pub open spec fn taggings_of(d: DbV, eid: Seq<char>) -> Seq<TaggingV> {
    d.taggings.filter(|t: TaggingV| t.diary_id == eid)
}

/// The tag names of one entry, in table order of its taggings.
pub open spec fn tag_names_of(d: DbV, eid: Seq<char>) -> Seq<Seq<char>> {
    taggings_of(d, eid).map_values(|t: TaggingV| tag_by_id(d.tags, t.tag_id).name)
}

/// The entry carries a tag of this name.
pub open spec fn entry_tagged(d: DbV, eid: Seq<char>, name: Seq<char>) -> bool {
    has_tag_name(d.tags, name) && has_tagging(d.taggings, eid, tag_by_name(d.tags, name).id)
}

/// The entries carrying a tag of this name, in entry-table order.
pub open spec fn tagged_entries(d: DbV, name: Seq<char>) -> Seq<EntryV> {
    d.entries.filter(|e: EntryV| entry_tagged(d, e.id, name))
}

/// The relationships an entry participates in, as parent or child, in table
/// order.
pub open spec fn rels_of(d: DbV, eid: Seq<char>) -> Seq<RelV> {
    d.relationships.filter(|r: RelV| r.parent_id == eid || r.child_id == eid)
}

/// The graph projection's nodes: one per entry, then one per tag.
pub open spec fn graph_nodes(d: DbV) -> Seq<NodeV> {
    d.entries.map_values(
        |e: EntryV| NodeV {
            id: e.id,
            label: e.title,
            node_type: "diary"@,
            properties: seq![
                PropV { key: "title"@, value: e.title },
                PropV { key: "created_at"@, value: e.created_at },
            ],
        },
    ) + d.tags.map_values(
        |t: TagV| NodeV {
            id: t.id,
            label: t.name,
            node_type: "tag"@,
            properties: seq![PropV { key: "name"@, value: t.name }],
        },
    )
}

/// The synthetic identifier of a tagging edge.
pub open spec fn tag_edge_id(eid: Seq<char>, tid: Seq<char>) -> Seq<char> {
    "tag-"@ + eid + "-"@ + tid
}

/// The label of a tagging edge.
pub open spec fn tag_edge_label(name: Seq<char>) -> Seq<char> {
    "tagged_as_"@ + name
}

/// The graph projection's edges: one per tagging (entry to tag), then one per
/// relationship, directed child to parent.
pub open spec fn graph_edges(d: DbV) -> Seq<EdgeV> {
    d.taggings.map_values(
        |t: TaggingV| EdgeV {
            id: tag_edge_id(t.diary_id, t.tag_id),
            source: t.diary_id,
            target: t.tag_id,
            label: tag_edge_label(tag_by_id(d.tags, t.tag_id).name),
        },
    ) + d.relationships.map_values(
        |r: RelV| EdgeV { id: r.id, source: r.child_id, target: r.parent_id, label: r.relationship_type },
    )
}

/// Filtering commutes with extending at the right end.
pub proof fn lemma_filter_push<A>(s: Seq<A>, x: A, p: spec_fn(A) -> bool)
    ensures
        s.push(x).filter(p) == if p(x) {
            s.filter(p).push(x)
        } else {
            s.filter(p)
        },
{
    reveal(Seq::filter);
    assert(s.push(x).drop_last() =~= s);
    assert(s.push(x).last() == x);
}

/// A pairwise property of a sequence survives filtering.
pub proof fn lemma_filter_pairwise<A>(s: Seq<A>, p: spec_fn(A) -> bool, q: spec_fn(A, A) -> bool)
    requires
        forall|i: int, j: int| 0 <= i < j < s.len() ==> #[trigger] q(s[i], s[j]),
    ensures
        forall|i: int, j: int|
            0 <= i < j < s.filter(p).len() ==> #[trigger] q(s.filter(p)[i], s.filter(p)[j]),
    decreases s.len(),
{
    reveal(Seq::filter);
    if s.len() > 0 {
        let dl = s.drop_last();
        assert forall|i: int, j: int| 0 <= i < j < dl.len() implies #[trigger] q(dl[i], dl[j]) by {
            assert(dl[i] == s[i] && dl[j] == s[j]);
        }
        lemma_filter_pairwise(dl, p, q);
        let f = s.filter(p);
        let fd = dl.filter(p);
        if p(s.last()) {
            assert(f == fd.push(s.last()));
            assert forall|i: int, j: int| 0 <= i < j < f.len() implies #[trigger] q(f[i], f[j]) by {
                if j < f.len() - 1 {
                    assert(f[i] == fd[i] && f[j] == fd[j]);
                } else {
                    assert(f[i] == fd[i]);
                    assert(fd.contains(fd[i]));
                    dl.lemma_filter_contains_rev(p, fd[i]);
                    let k = choose|k: int| 0 <= k < dl.len() && dl[k] == fd[i];
                    assert(s[k] == fd[i]);
                    assert(q(s[k], s[s.len() - 1]));
                }
            }
        }
    }
}

/// Every element of a filtered sequence appears in the original at some index.
pub proof fn lemma_filter_elem_index<A>(s: Seq<A>, p: spec_fn(A) -> bool, i: int) -> (k: int)
    requires
        0 <= i < s.filter(p).len(),
    ensures
        0 <= k < s.len() && s[k] == s.filter(p)[i] && p(s[k]),
{
    broadcast use vstd::seq_lib::group_filter_ensures;

    assert(s.filter(p).contains(s.filter(p)[i]));
    s.lemma_filter_contains_rev(p, s.filter(p)[i]);
    let k = choose|k: int| 0 <= k < s.len() && s[k] == s.filter(p)[i];
    k
}

/// An update leaves identifiers and creation instants in place.
pub proof fn lemma_update_entries_frame(
    es: Seq<EntryV>,
    id: Seq<char>,
    title: Seq<char>,
    body: Seq<char>,
    now: Seq<char>,
)
    ensures
        update_entries(es, id, title, body, now).len() == es.len(),
        forall|i: int|
            0 <= i < es.len() ==> (#[trigger] update_entries(es, id, title, body, now)[i]).id
                == es[i].id && update_entries(es, id, title, body, now)[i].created_at
                == es[i].created_at,
        forall|y: Seq<char>| #[trigger] has_entry(update_entries(es, id, title, body, now), y)
            == has_entry(es, y),
{
    let up = update_entries(es, id, title, body, now);
    assert forall|y: Seq<char>| #[trigger] has_entry(up, y) == has_entry(es, y) by {
        if has_entry(up, y) {
            let i = choose|i: int| 0 <= i < up.len() && up[i].id == y;
            assert(es[i].id == y);
        }
        if has_entry(es, y) {
            let i = choose|i: int| 0 <= i < es.len() && es[i].id == y;
            assert(up[i].id == y);
        }
    }
}

/// A sorted insert of a fresh identifier preserves uniqueness and order, and
/// grows the identifier set by exactly that identifier.
pub proof fn lemma_insert_entry_wf(es: Seq<EntryV>, e: EntryV)
    requires
        forall|i: int, j: int| 0 <= i < j < es.len() ==> (#[trigger] es[i].id) != (
        #[trigger] es[j].id),
        entries_sorted(es),
        !has_entry(es, e.id),
    ensures
        forall|i: int, j: int|
            0 <= i < j < insert_entry(es, e).len() ==> (#[trigger] insert_entry(es, e)[i].id) != (
            #[trigger] insert_entry(es, e)[j].id),
        entries_sorted(insert_entry(es, e)),
        forall|y: Seq<char>| #[trigger] has_entry(insert_entry(es, e), y) == (has_entry(es, y)
            || y == e.id),
        insert_entry(es, e).len() == es.len() + 1,
{
    let pos = insert_pos(es, e.created_at);
    lemma_insert_pos_props(es, e.created_at);
    let ns = insert_entry(es, e);
    assert(ns.len() == es.len() + 1);
    // where each element of the inserted sequence comes from
    assert(forall|k: int| 0 <= k < pos ==> #[trigger] ns[k] == es[k]);
    assert(ns[pos] == e);
    assert(forall|k: int| pos < k < ns.len() ==> #[trigger] ns[k] == es[k - 1]);
    assert forall|i: int, j: int| 0 <= i < j < ns.len() implies (#[trigger] ns[i].id) != (
    #[trigger] ns[j].id) by {
        if i == pos {
            assert(ns[j].id != e.id);
        } else if j == pos {
            assert(ns[i].id != e.id);
        }
    }
    assert forall|i: int, j: int| 0 <= i < j < ns.len() implies lex_le(
        #[trigger] ns[j].created_at,
        #[trigger] ns[i].created_at,
    ) by {
        if i == pos && j > pos {
            assert(ns[j] == es[j - 1]);
            if j - 1 > pos {
                assert(lex_le(es[j - 1].created_at, es[pos].created_at));
                lemma_lex_le_trans(es[j - 1].created_at, es[pos].created_at, e.created_at);
            }
        } else if j == pos && i < pos {
            assert(ns[i] == es[i]);
            assert(!lex_le(es[i].created_at, e.created_at));
            lemma_lex_le_total(es[i].created_at, e.created_at);
        } else if i < pos && j > pos {
            assert(ns[i] == es[i] && ns[j] == es[j - 1]);
            if j - 1 > i {
                assert(lex_le(es[j - 1].created_at, es[i].created_at));
            }
        }
    }
    assert forall|y: Seq<char>| #[trigger] has_entry(ns, y) == (has_entry(es, y) || y == e.id) by {
        if has_entry(ns, y) {
            let i = choose|i: int| 0 <= i < ns.len() && ns[i].id == y;
            if i != pos {
                if i < pos {
                    assert(es[i].id == y);
                } else {
                    assert(es[i - 1].id == y);
                }
            }
        }
        if has_entry(es, y) {
            let i = choose|i: int| 0 <= i < es.len() && es[i].id == y;
            if i < pos {
                assert(ns[i].id == y);
            } else {
                assert(ns[i + 1].id == y);
            }
        }
        if y == e.id {
            assert(ns[pos].id == y);
        }
    }
}

/// Identifier membership in a tag table only grows under a push.
proof fn lemma_has_tag_id_push(ts: Seq<TagV>, t: TagV, x: Seq<char>)
    ensures
        has_tag_id(ts.push(t), x) == (has_tag_id(ts, x) || t.id == x),
        has_tag_name(ts.push(t), x) == (has_tag_name(ts, x) || t.name == x),
{
    if has_tag_id(ts, x) {
        let i = choose|i: int| 0 <= i < ts.len() && ts[i].id == x;
        assert(ts.push(t)[i].id == x);
    }
    if t.id == x {
        assert(ts.push(t)[ts.len() as int].id == x);
    }
    if t.name == x {
        assert(ts.push(t)[ts.len() as int].name == x);
    }
    if has_tag_id(ts.push(t), x) {
        let i = choose|i: int| 0 <= i < ts.push(t).len() && ts.push(t)[i].id == x;
        if i < ts.len() {
            assert(ts[i].id == x);
        }
    }
    if has_tag_name(ts, x) {
        let i = choose|i: int| 0 <= i < ts.len() && ts[i].name == x;
        assert(ts.push(t)[i].name == x);
    }
    if has_tag_name(ts.push(t), x) {
        let i = choose|i: int| 0 <= i < ts.push(t).len() && ts.push(t)[i].name == x;
        if i < ts.len() {
            assert(ts[i].name == x);
        }
    }
}

/// Tag reconciliation preserves the table invariants: unique tag identifiers
/// and names, unique taggings, and referential integrity against an entry
/// table in which `eid` exists exactly when `entry_exists` says so. The tag
/// table only grows.
pub proof fn lemma_apply_tags_wf(
    tags: Seq<TagV>,
    tgs: Seq<TaggingV>,
    es: Seq<EntryV>,
    entry_exists: bool,
    eid: Seq<char>,
    names: Seq<Seq<char>>,
    mints: Seq<Seq<char>>,
)
    requires
        forall|i: int, j: int| 0 <= i < j < tags.len() ==> (#[trigger] tags[i].id) != (
        #[trigger] tags[j].id),
        forall|i: int, j: int| 0 <= i < j < tags.len() ==> (#[trigger] tags[i].name) != (
        #[trigger] tags[j].name),
        forall|i: int, j: int|
            0 <= i < j < tgs.len() ==> !((#[trigger] tgs[i]).diary_id == (
            #[trigger] tgs[j]).diary_id && tgs[i].tag_id == tgs[j].tag_id),
        forall|i: int|
            0 <= i < tgs.len() ==> has_entry(es, (#[trigger] tgs[i]).diary_id) && has_tag_id(
                tags,
                tgs[i].tag_id,
            ),
        entry_exists == has_entry(es, eid),
    ensures
        (match apply_tags(tags, tgs, entry_exists, eid, names, mints) {
            None => true,
            Some((ts2, tg2)) => {
                &&& forall|i: int, j: int| 0 <= i < j < ts2.len() ==> (#[trigger] ts2[i].id) != (
                #[trigger] ts2[j].id)
                &&& forall|i: int, j: int| 0 <= i < j < ts2.len() ==> (#[trigger] ts2[i].name)
                    != (#[trigger] ts2[j].name)
                &&& forall|i: int, j: int|
                    0 <= i < j < tg2.len() ==> !((#[trigger] tg2[i]).diary_id == (
                    #[trigger] tg2[j]).diary_id && tg2[i].tag_id == tg2[j].tag_id)
                &&& forall|i: int|
                    0 <= i < tg2.len() ==> has_entry(es, (#[trigger] tg2[i]).diary_id)
                        && has_tag_id(ts2, tg2[i].tag_id)
                &&& tags.is_prefix_of(ts2)
            },
        }),
    decreases names.len(),
{
    if names.len() == 0 {
        assert(tags.is_prefix_of(tags));
    } else {
        let name = names[0];
        if has_tag_name(tags, name) {
            let tid = tag_by_name(tags, name).id;
            let i = choose|i: int| 0 <= i < tags.len() && tags[i].name == name;
            assert(has_tag_id(tags, tags[i].id));
            let tg1 = add_tagging(tgs, entry_exists, eid, tid);
            lemma_apply_tags_wf(
                tags,
                tg1,
                es,
                entry_exists,
                eid,
                names.drop_first(),
                mints.drop_first(),
            );
        } else if has_tag_id(tags, mints[0]) {
        } else {
            let t = TagV { id: mints[0], name: name };
            let ts1 = tags.push(t);
            assert forall|i: int, j: int| 0 <= i < j < ts1.len() implies (#[trigger] ts1[i].id)
                != (#[trigger] ts1[j].id) by {
                if j == ts1.len() - 1 {
                    assert(ts1[i] == tags[i]);
                    assert(has_tag_id(tags, tags[i].id));
                }
            }
            assert forall|i: int, j: int| 0 <= i < j < ts1.len() implies (#[trigger] ts1[i].name)
                != (#[trigger] ts1[j].name) by {
                if j == ts1.len() - 1 {
                    assert(ts1[i] == tags[i]);
                    assert(has_tag_name(tags, tags[i].name));
                }
            }
            let tg1 = add_tagging(tgs, entry_exists, eid, mints[0]);
            assert forall|i: int|
                0 <= i < tg1.len() implies has_entry(es, (#[trigger] tg1[i]).diary_id)
                && has_tag_id(ts1, tg1[i].tag_id) by {
                if i < tgs.len() {
                    lemma_has_tag_id_push(tags, t, tgs[i].tag_id);
                } else {
                    lemma_has_tag_id_push(tags, t, mints[0]);
                }
            }
            assert forall|i: int, j: int|
                0 <= i < j < tg1.len() implies !((#[trigger] tg1[i]).diary_id == (
            #[trigger] tg1[j]).diary_id && tg1[i].tag_id == tg1[j].tag_id) by {}
            lemma_apply_tags_wf(
                ts1,
                tg1,
                es,
                entry_exists,
                eid,
                names.drop_first(),
                mints.drop_first(),
            );
            match apply_tags(ts1, tg1, entry_exists, eid, names.drop_first(), mints.drop_first()) {
                None => {},
                Some((ts2, tg2)) => {
                    assert(ts1.is_prefix_of(ts2));
                    assert(tags.is_prefix_of(ts1));
                    assert(tags.is_prefix_of(ts2));
                },
            }
        }
    }
}

/// Reconciliation only appends to the tag table.
pub proof fn lemma_apply_tags_prefix(
    tags: Seq<TagV>,
    tgs: Seq<TaggingV>,
    entry_exists: bool,
    eid: Seq<char>,
    names: Seq<Seq<char>>,
    mints: Seq<Seq<char>>,
)
    ensures
        (match apply_tags(tags, tgs, entry_exists, eid, names, mints) {
            None => true,
            Some((ts2, tg2)) => tags.is_prefix_of(ts2),
        }),
    decreases names.len(),
{
    if names.len() == 0 {
        assert(tags =~= tags.subrange(0, tags.len() as int));
    } else {
        let name = names[0];
        if has_tag_name(tags, name) {
            let tid = tag_by_name(tags, name).id;
            lemma_apply_tags_prefix(
                tags,
                add_tagging(tgs, entry_exists, eid, tid),
                entry_exists,
                eid,
                names.drop_first(),
                mints.drop_first(),
            );
        } else if has_tag_id(tags, mints[0]) {
        } else {
            let ts1 = tags.push(TagV { id: mints[0], name: name });
            lemma_apply_tags_prefix(
                ts1,
                add_tagging(tgs, entry_exists, eid, mints[0]),
                entry_exists,
                eid,
                names.drop_first(),
                mints.drop_first(),
            );
            match apply_tags(tags, tgs, entry_exists, eid, names, mints) {
                None => {},
                Some((ts2, _)) => {
                    assert(ts1.is_prefix_of(ts2));
                    assert forall|i: int| 0 <= i < tags.len() implies tags[i] == #[trigger] ts2[i] by {
                        assert(ts1[i] == ts2.subrange(0, ts1.len() as int)[i]);
                        assert(tags[i] == ts1[i]);
                    }
                    assert(tags =~= ts2.subrange(0, tags.len() as int));
                },
            }
        }
    }
}

/// Every given tag name exists in the reconciled tag table.
pub proof fn lemma_apply_tags_names(
    tags: Seq<TagV>,
    tgs: Seq<TaggingV>,
    entry_exists: bool,
    eid: Seq<char>,
    names: Seq<Seq<char>>,
    mints: Seq<Seq<char>>,
)
    ensures
        (match apply_tags(tags, tgs, entry_exists, eid, names, mints) {
            None => true,
            Some((ts2, tg2)) => forall|k: int|
                0 <= k < names.len() ==> has_tag_name(ts2, #[trigger] names[k]),
        }),
    decreases names.len(),
{
    if names.len() == 0 {
    } else {
        let name = names[0];
        match apply_tags(tags, tgs, entry_exists, eid, names, mints) {
            None => {},
            Some((ts2, tg2)) => {
                if has_tag_name(tags, name) {
                    let tid = tag_by_name(tags, name).id;
                    let tg1 = add_tagging(tgs, entry_exists, eid, tid);
                    lemma_apply_tags_names(
                        tags,
                        tg1,
                        entry_exists,
                        eid,
                        names.drop_first(),
                        mints.drop_first(),
                    );
                    lemma_apply_tags_prefix(
                        tags,
                        tg1,
                        entry_exists,
                        eid,
                        names.drop_first(),
                        mints.drop_first(),
                    );
                    assert forall|k: int| 0 <= k < names.len() implies has_tag_name(
                        ts2,
                        #[trigger] names[k],
                    ) by {
                        if k == 0 {
                            let i = choose|i: int|
                                0 <= i < tags.len() && tags[i].name == name;
                            assert(tags[i] == ts2.subrange(0, tags.len() as int)[i]);
                            assert(ts2[i].name == name);
                        } else {
                            assert(names.drop_first()[k - 1] == names[k]);
                        }
                    }
                } else if has_tag_id(tags, mints[0]) {
                } else {
                    let ts1 = tags.push(TagV { id: mints[0], name: name });
                    let tg1 = add_tagging(tgs, entry_exists, eid, mints[0]);
                    lemma_apply_tags_names(
                        ts1,
                        tg1,
                        entry_exists,
                        eid,
                        names.drop_first(),
                        mints.drop_first(),
                    );
                    lemma_apply_tags_prefix(
                        ts1,
                        tg1,
                        entry_exists,
                        eid,
                        names.drop_first(),
                        mints.drop_first(),
                    );
                    assert forall|k: int| 0 <= k < names.len() implies has_tag_name(
                        ts2,
                        #[trigger] names[k],
                    ) by {
                        if k == 0 {
                            assert(ts1[tags.len() as int].name == name);
                            assert(ts1[tags.len() as int] == ts2.subrange(0, ts1.len() as int)[tags.len() as int]);
                            assert(ts2[tags.len() as int].name == name);
                        } else {
                            assert(names.drop_first()[k - 1] == names[k]);
                        }
                    }
                }
            },
        }
    }
}

/// Reconciliation cannot fail when every given name already has a tag: no
/// minted identifier is consulted, so none can collide.
pub proof fn lemma_apply_tags_all_present(
    tags: Seq<TagV>,
    tgs: Seq<TaggingV>,
    entry_exists: bool,
    eid: Seq<char>,
    names: Seq<Seq<char>>,
    mints: Seq<Seq<char>>,
)
    requires
        forall|k: int| 0 <= k < names.len() ==> has_tag_name(tags, #[trigger] names[k]),
    ensures
        apply_tags(tags, tgs, entry_exists, eid, names, mints) is Some,
    decreases names.len(),
{
    if names.len() > 0 {
        assert(has_tag_name(tags, names[0]));
        let tid = tag_by_name(tags, names[0]).id;
        assert forall|k: int|
            0 <= k < names.drop_first().len() implies has_tag_name(
            tags,
            #[trigger] names.drop_first()[k],
        ) by {
            assert(names.drop_first()[k] == names[k + 1]);
        }
        lemma_apply_tags_all_present(
            tags,
            add_tagging(tgs, entry_exists, eid, tid),
            entry_exists,
            eid,
            names.drop_first(),
            mints.drop_first(),
        );
    }
}

/// Exactly which taggings of the entry the reconciliation leaves behind: the
/// ones already there, plus one per given name (resolved against the final
/// tag table), the latter only when the entry exists.
pub proof fn lemma_apply_tags_taggings(
    tags: Seq<TagV>,
    tgs: Seq<TaggingV>,
    es: Seq<EntryV>,
    entry_exists: bool,
    eid: Seq<char>,
    names: Seq<Seq<char>>,
    mints: Seq<Seq<char>>,
)
    requires
        forall|i: int, j: int| 0 <= i < j < tags.len() ==> (#[trigger] tags[i].id) != (
        #[trigger] tags[j].id),
        forall|i: int, j: int| 0 <= i < j < tags.len() ==> (#[trigger] tags[i].name) != (
        #[trigger] tags[j].name),
        forall|i: int, j: int|
            0 <= i < j < tgs.len() ==> !((#[trigger] tgs[i]).diary_id == (
            #[trigger] tgs[j]).diary_id && tgs[i].tag_id == tgs[j].tag_id),
        forall|i: int|
            0 <= i < tgs.len() ==> has_entry(es, (#[trigger] tgs[i]).diary_id) && has_tag_id(
                tags,
                tgs[i].tag_id,
            ),
        entry_exists == has_entry(es, eid),
    ensures
        (match apply_tags(tags, tgs, entry_exists, eid, names, mints) {
            None => true,
            Some((ts2, tg2)) => forall|tid: Seq<char>|
                #[trigger] has_tagging(tg2, eid, tid) <==> (has_tagging(tgs, eid, tid) || (
                entry_exists && exists|k: int|
                    0 <= k < names.len() && has_tag_name(ts2, #[trigger] names[k]) && tag_by_name(
                        ts2,
                        names[k],
                    ).id == tid)),
        }),
    decreases names.len(),
{
    if names.len() == 0 {
    } else {
        let name = names[0];
        match apply_tags(tags, tgs, entry_exists, eid, names, mints) {
            None => {},
            Some((ts2, tg2)) => {
                lemma_apply_tags_wf(tags, tgs, es, entry_exists, eid, names, mints);
                let dn = names.drop_first();
                let dm = mints.drop_first();
                if has_tag_name(tags, name) {
                    let tid0 = tag_by_name(tags, name).id;
                    let tg1 = add_tagging(tgs, entry_exists, eid, tid0);
                    // tg1 keeps the invariants for the recursive call
                    let i0 = choose|i: int| 0 <= i < tags.len() && tags[i].name == name;
                    assert(has_tag_id(tags, tags[i0].id));
                    assert forall|i: int|
                        0 <= i < tg1.len() implies has_entry(es, (#[trigger] tg1[i]).diary_id)
                        && has_tag_id(tags, tg1[i].tag_id) by {}
                    lemma_apply_tags_taggings(tags, tg1, es, entry_exists, eid, dn, dm);
                    lemma_apply_tags_prefix(tags, tg1, entry_exists, eid, dn, dm);
                    // the resolved identifier of the first name in the final table
                    assert(tags[i0] == ts2.subrange(0, tags.len() as int)[i0]);
                    assert(ts2[i0].name == name);
                    let j0 = choose|j: int| 0 <= j < ts2.len() && ts2[j].name == name;
                    assert(j0 == i0);
                    assert(tag_by_name(ts2, name).id == tid0);
                    assert forall|tid: Seq<char>|
                        #[trigger] has_tagging(tg2, eid, tid) <==> (has_tagging(tgs, eid, tid) || (
                        entry_exists && exists|k: int|
                            0 <= k < names.len() && has_tag_name(ts2, #[trigger] names[k])
                                && tag_by_name(ts2, names[k]).id == tid)) by {
                        lemma_add_tagging_has(tgs, entry_exists, eid, tid0, tid);
                        if has_tagging(tg2, eid, tid) {
                            if !has_tagging(tgs, eid, tid) {
                                if has_tagging(tg1, eid, tid) {
                                    assert(entry_exists && tid == tid0);
                                    assert(has_tag_name(ts2, names[0]) && tag_by_name(
                                        ts2,
                                        names[0],
                                    ).id == tid);
                                } else {
                                    let k = choose|k: int|
                                        0 <= k < dn.len() && has_tag_name(ts2, dn[k])
                                            && tag_by_name(ts2, dn[k]).id == tid;
                                    assert(names[k + 1] == dn[k]);
                                }
                            }
                        }
                        if has_tagging(tgs, eid, tid) {
                            assert(has_tagging(tg1, eid, tid));
                            assert(has_tagging(tg2, eid, tid));
                        }
                        if entry_exists && (exists|k: int|
                            0 <= k < names.len() && has_tag_name(ts2, #[trigger] names[k])
                                && tag_by_name(ts2, names[k]).id == tid) {
                            let k = choose|k: int|
                                0 <= k < names.len() && has_tag_name(ts2, #[trigger] names[k])
                                    && tag_by_name(ts2, names[k]).id == tid;
                            if k == 0 {
                                assert(has_tagging(tg1, eid, tid0));
                                assert(has_tagging(tg2, eid, tid));
                            } else {
                                assert(dn[k - 1] == names[k]);
                                assert(has_tagging(tg2, eid, tid));
                            }
                        }
                    }
                } else if has_tag_id(tags, mints[0]) {
                } else {
                    let t = TagV { id: mints[0], name: name };
                    let ts1 = tags.push(t);
                    let tid0 = mints[0];
                    let tg1 = add_tagging(tgs, entry_exists, eid, tid0);
                    assert forall|i: int, j: int| 0 <= i < j < ts1.len() implies (
                    #[trigger] ts1[i].id) != (#[trigger] ts1[j].id) by {
                        if j == ts1.len() - 1 {
                            assert(ts1[i] == tags[i]);
                            assert(has_tag_id(tags, tags[i].id));
                        }
                    }
                    assert forall|i: int, j: int| 0 <= i < j < ts1.len() implies (
                    #[trigger] ts1[i].name) != (#[trigger] ts1[j].name) by {
                        if j == ts1.len() - 1 {
                            assert(ts1[i] == tags[i]);
                            assert(has_tag_name(tags, tags[i].name));
                        }
                    }
                    assert forall|i: int|
                        0 <= i < tg1.len() implies has_entry(es, (#[trigger] tg1[i]).diary_id)
                        && has_tag_id(ts1, tg1[i].tag_id) by {
                        if i < tgs.len() {
                            lemma_has_tag_id_push(tags, t, tgs[i].tag_id);
                        } else {
                            lemma_has_tag_id_push(tags, t, tid0);
                        }
                    }
                    lemma_apply_tags_taggings(ts1, tg1, es, entry_exists, eid, dn, dm);
                    lemma_apply_tags_prefix(ts1, tg1, entry_exists, eid, dn, dm);
                    assert(ts1[tags.len() as int] == ts2.subrange(0, ts1.len() as int)[tags.len() as int]);
                    assert(ts2[tags.len() as int].name == name);
                    let j0 = choose|j: int| 0 <= j < ts2.len() && ts2[j].name == name;
                    assert(j0 == tags.len());
                    assert(tag_by_name(ts2, name).id == tid0);
                    assert forall|tid: Seq<char>|
                        #[trigger] has_tagging(tg2, eid, tid) <==> (has_tagging(tgs, eid, tid) || (
                        entry_exists && exists|k: int|
                            0 <= k < names.len() && has_tag_name(ts2, #[trigger] names[k])
                                && tag_by_name(ts2, names[k]).id == tid)) by {
                        lemma_add_tagging_has(tgs, entry_exists, eid, tid0, tid);
                        if has_tagging(tg2, eid, tid) {
                            if !has_tagging(tgs, eid, tid) {
                                if has_tagging(tg1, eid, tid) {
                                    assert(entry_exists && tid == tid0);
                                    assert(has_tag_name(ts2, names[0]) && tag_by_name(
                                        ts2,
                                        names[0],
                                    ).id == tid);
                                } else {
                                    let k = choose|k: int|
                                        0 <= k < dn.len() && has_tag_name(ts2, dn[k])
                                            && tag_by_name(ts2, dn[k]).id == tid;
                                    assert(names[k + 1] == dn[k]);
                                }
                            }
                        }
                        if has_tagging(tgs, eid, tid) {
                            assert(has_tagging(tg1, eid, tid));
                            assert(has_tagging(tg2, eid, tid));
                        }
                        if entry_exists && (exists|k: int|
                            0 <= k < names.len() && has_tag_name(ts2, #[trigger] names[k])
                                && tag_by_name(ts2, names[k]).id == tid) {
                            let k = choose|k: int|
                                0 <= k < names.len() && has_tag_name(ts2, #[trigger] names[k])
                                    && tag_by_name(ts2, names[k]).id == tid;
                            if k == 0 {
                                assert(has_tagging(tg1, eid, tid0));
                                assert(has_tagging(tg2, eid, tid));
                            } else {
                                assert(dn[k - 1] == names[k]);
                                assert(has_tagging(tg2, eid, tid));
                            }
                        }
                    }
                }
            },
        }
    }
}

/// How one conflict-tolerant tagging insert changes membership.
proof fn lemma_add_tagging_has(
    tgs: Seq<TaggingV>,
    entry_exists: bool,
    eid: Seq<char>,
    tid0: Seq<char>,
    tid: Seq<char>,
)
    ensures
        has_tagging(add_tagging(tgs, entry_exists, eid, tid0), eid, tid) == (has_tagging(
            tgs,
            eid,
            tid,
        ) || (entry_exists && tid == tid0)),
{
    let tg1 = add_tagging(tgs, entry_exists, eid, tid0);
    if has_tagging(tgs, eid, tid) {
        let i = choose|i: int|
            0 <= i < tgs.len() && tgs[i].diary_id == eid && tgs[i].tag_id == tid;
        assert(tg1[i].diary_id == eid && tg1[i].tag_id == tid);
    }
    if entry_exists && tid == tid0 {
        if has_tagging(tgs, eid, tid0) {
        } else {
            assert(tg1[tgs.len() as int].diary_id == eid && tg1[tgs.len() as int].tag_id == tid0);
        }
    }
    if has_tagging(tg1, eid, tid) {
        let i = choose|i: int|
            0 <= i < tg1.len() && tg1[i].diary_id == eid && tg1[i].tag_id == tid;
        if i < tgs.len() {
            assert(tgs[i].diary_id == eid && tgs[i].tag_id == tid);
        }
    }
}

/// `save_tx` preserves well-formedness and never touches the relationships.
pub proof fn lemma_save_tx_wf(
    d: DbV,
    existing: Option<Seq<char>>,
    fresh_id: Seq<char>,
    title: Seq<char>,
    body: Seq<char>,
    now: Seq<char>,
    names: Seq<Seq<char>>,
    mints: Seq<Seq<char>>,
)
    requires
        wf_db(d),
    ensures
        (match save_tx(d, existing, fresh_id, title, body, now, names, mints) {
            None => true,
            Some(d2) => wf_db(d2) && d2.relationships == d.relationships,
        }),
{
    match existing {
        Some(x) => {
            let es = update_entries(d.entries, x, title, body, now);
            lemma_update_entries_frame(d.entries, x, title, body, now);
            let keep = |t: TaggingV| t.diary_id != x;
            let tgs0 = d.taggings.filter(keep);
            let q = |a: TaggingV, b: TaggingV| !(a.diary_id == b.diary_id && a.tag_id
                == b.tag_id);
            assert forall|i: int, j: int| 0 <= i < j < d.taggings.len() implies #[trigger] q(
                d.taggings[i],
                d.taggings[j],
            ) by {}
            lemma_filter_pairwise(d.taggings, keep, q);
            assert forall|i: int, j: int|
                0 <= i < j < tgs0.len() implies !((#[trigger] tgs0[i]).diary_id == (
            #[trigger] tgs0[j]).diary_id && tgs0[i].tag_id == tgs0[j].tag_id) by {
                assert(q(tgs0[i], tgs0[j]));
            }
            assert forall|i: int|
                0 <= i < tgs0.len() implies has_entry(d.entries, (#[trigger] tgs0[i]).diary_id)
                && has_tag_id(d.tags, tgs0[i].tag_id) by {
                let k = lemma_filter_elem_index(d.taggings, keep, i);
            }
            lemma_apply_tags_wf(
                d.tags,
                tgs0,
                d.entries,
                has_entry(d.entries, x),
                x,
                names,
                mints,
            );
            match apply_tags(d.tags, tgs0, has_entry(d.entries, x), x, names, mints) {
                None => {},
                Some((ts2, tg2)) => {
                    let d2 = DbV {
                        entries: es,
                        tags: ts2,
                        taggings: tg2,
                        relationships: d.relationships,
                    };
                    assert forall|i: int|
                        0 <= i < tg2.len() implies has_entry(
                        d2.entries,
                        (#[trigger] tg2[i]).diary_id,
                    ) && has_tag_id(d2.tags, tg2[i].tag_id) by {}
                    assert forall|i: int|
                        0 <= i < d2.relationships.len() implies has_entry(
                        d2.entries,
                        (#[trigger] d2.relationships[i]).parent_id,
                    ) && has_entry(d2.entries, d2.relationships[i].child_id) by {}
                    assert(entries_sorted(es)) by {
                        assert forall|i: int, j: int| 0 <= i < j < es.len() implies lex_le(
                            #[trigger] es[j].created_at,
                            #[trigger] es[i].created_at,
                        ) by {
                            assert(es[i].created_at == d.entries[i].created_at);
                            assert(es[j].created_at == d.entries[j].created_at);
                        }
                    }
                    assert forall|i: int, j: int| 0 <= i < j < es.len() implies (
                    #[trigger] es[i].id) != (#[trigger] es[j].id) by {
                        assert(es[i].id == d.entries[i].id && es[j].id == d.entries[j].id);
                    }
                    assert(wf_db(d2));
                },
            }
        },
        None => {
            if !has_entry(d.entries, fresh_id) {
                let e = EntryV {
                    id: fresh_id,
                    title: title,
                    body: body,
                    created_at: now,
                    updated_at: now,
                };
                let es = insert_entry(d.entries, e);
                lemma_insert_entry_wf(d.entries, e);
                assert forall|i: int|
                    0 <= i < d.taggings.len() implies has_entry(
                    es,
                    (#[trigger] d.taggings[i]).diary_id,
                ) && has_tag_id(d.tags, d.taggings[i].tag_id) by {
                    assert(has_entry(d.entries, d.taggings[i].diary_id));
                }
                lemma_apply_tags_wf(d.tags, d.taggings, es, true, fresh_id, names, mints);
                match apply_tags(d.tags, d.taggings, true, fresh_id, names, mints) {
                    None => {},
                    Some((ts2, tg2)) => {
                        let d2 = DbV {
                            entries: es,
                            tags: ts2,
                            taggings: tg2,
                            relationships: d.relationships,
                        };
                        assert forall|i: int|
                            0 <= i < d2.relationships.len() implies has_entry(
                            es,
                            (#[trigger] d2.relationships[i]).parent_id,
                        ) && has_entry(es, d2.relationships[i].child_id) by {
                            assert(has_entry(d.entries, d.relationships[i].parent_id));
                            assert(has_entry(d.entries, d.relationships[i].child_id));
                        }
                        assert(wf_db(d2));
                    },
                }
            }
        },
    }
}

/// Under unique identifiers, `entry_with` picks exactly the row at hand.
pub proof fn lemma_entry_with_is(es: Seq<EntryV>, i: int)
    requires
        forall|a: int, b: int| 0 <= a < b < es.len() ==> (#[trigger] es[a].id) != (
        #[trigger] es[b].id),
        0 <= i < es.len(),
    ensures
        has_entry(es, es[i].id),
        entry_with(es, es[i].id) == es[i],
{
    assert(has_entry(es, es[i].id));
    let j = choose|j: int| 0 <= j < es.len() && es[j].id == es[i].id;
    assert(j == i);
}

/// Under unique identifiers, `tag_by_id` picks exactly the row at hand.
pub proof fn lemma_tag_by_id_is(ts: Seq<TagV>, i: int)
    requires
        forall|a: int, b: int| 0 <= a < b < ts.len() ==> (#[trigger] ts[a].id) != (
        #[trigger] ts[b].id),
        0 <= i < ts.len(),
    ensures
        has_tag_id(ts, ts[i].id),
        tag_by_id(ts, ts[i].id) == ts[i],
{
    assert(has_tag_id(ts, ts[i].id));
    let j = choose|j: int| 0 <= j < ts.len() && ts[j].id == ts[i].id;
    assert(j == i);
}

/// Under unique names, `tag_by_name` picks exactly the row at hand.
pub proof fn lemma_tag_by_name_is(ts: Seq<TagV>, i: int)
    requires
        forall|a: int, b: int| 0 <= a < b < ts.len() ==> (#[trigger] ts[a].name) != (
        #[trigger] ts[b].name),
        0 <= i < ts.len(),
    ensures
        has_tag_name(ts, ts[i].name),
        tag_by_name(ts, ts[i].name) == ts[i],
{
    assert(has_tag_name(ts, ts[i].name));
    let j = choose|j: int| 0 <= j < ts.len() && ts[j].name == ts[i].name;
    assert(j == i);
}

/// Removing relationships (by any criterion) preserves well-formedness.
pub proof fn lemma_filter_rels_wf(d: DbV, keep: spec_fn(RelV) -> bool)
    requires
        wf_db(d),
    ensures
        wf_db(DbV { relationships: d.relationships.filter(keep), ..d }),
{
    let d2 = DbV { relationships: d.relationships.filter(keep), ..d };
    let qr = |a: RelV, b: RelV| a.id != b.id;
    assert forall|i: int, j: int| 0 <= i < j < d.relationships.len() implies #[trigger] qr(
        d.relationships[i],
        d.relationships[j],
    ) by {}
    lemma_filter_pairwise(d.relationships, keep, qr);
    assert forall|i: int, j: int| 0 <= i < j < d2.relationships.len() implies (
    #[trigger] d2.relationships[i].id) != (#[trigger] d2.relationships[j].id) by {
        assert(qr(d2.relationships[i], d2.relationships[j]));
    }
    assert forall|i: int|
        0 <= i < d2.relationships.len() implies has_entry(
        d2.entries,
        (#[trigger] d2.relationships[i]).parent_id,
    ) && has_entry(d2.entries, d2.relationships[i].child_id) by {
        let k = lemma_filter_elem_index(d.relationships, keep, i);
    }
}

/// `delete_tx` preserves well-formedness: what remains references only what
/// remains.
pub proof fn lemma_delete_tx_wf(d: DbV, id: Seq<char>)
    requires
        wf_db(d),
    ensures
        wf_db(delete_tx(d, id)),
        !has_entry(delete_tx(d, id).entries, id),
{
    let d2 = delete_tx(d, id);
    let keep_e = |e: EntryV| e.id != id;
    let keep_t = |t: TaggingV| t.diary_id != id;
    let keep_r = |r: RelV| r.parent_id != id && r.child_id != id;
    let qe = |a: EntryV, b: EntryV| a.id != b.id;
    let qs = |a: EntryV, b: EntryV| lex_le(b.created_at, a.created_at);
    let qr = |a: RelV, b: RelV| a.id != b.id;
    let qt = |a: TaggingV, b: TaggingV| !(a.diary_id == b.diary_id && a.tag_id == b.tag_id);
    assert forall|i: int, j: int| 0 <= i < j < d.entries.len() implies #[trigger] qe(
        d.entries[i],
        d.entries[j],
    ) by {}
    assert forall|i: int, j: int| 0 <= i < j < d.entries.len() implies #[trigger] qs(
        d.entries[i],
        d.entries[j],
    ) by {}
    assert forall|i: int, j: int| 0 <= i < j < d.relationships.len() implies #[trigger] qr(
        d.relationships[i],
        d.relationships[j],
    ) by {}
    assert forall|i: int, j: int| 0 <= i < j < d.taggings.len() implies #[trigger] qt(
        d.taggings[i],
        d.taggings[j],
    ) by {}
    lemma_filter_pairwise(d.entries, keep_e, qe);
    lemma_filter_pairwise(d.entries, keep_e, qs);
    lemma_filter_pairwise(d.relationships, keep_r, qr);
    lemma_filter_pairwise(d.taggings, keep_t, qt);
    assert forall|i: int, j: int| 0 <= i < j < d2.entries.len() implies (
    #[trigger] d2.entries[i].id) != (#[trigger] d2.entries[j].id) by {
        assert(qe(d2.entries[i], d2.entries[j]));
    }
    assert forall|i: int, j: int| 0 <= i < j < d2.entries.len() implies lex_le(
        #[trigger] d2.entries[j].created_at,
        #[trigger] d2.entries[i].created_at,
    ) by {
        assert(qs(d2.entries[i], d2.entries[j]));
    }
    assert forall|i: int, j: int| 0 <= i < j < d2.relationships.len() implies (
    #[trigger] d2.relationships[i].id) != (#[trigger] d2.relationships[j].id) by {
        assert(qr(d2.relationships[i], d2.relationships[j]));
    }
    assert forall|i: int, j: int|
        0 <= i < j < d2.taggings.len() implies !((#[trigger] d2.taggings[i]).diary_id == (
    #[trigger] d2.taggings[j]).diary_id && d2.taggings[i].tag_id == d2.taggings[j].tag_id) by {
        assert(qt(d2.taggings[i], d2.taggings[j]));
    }
    broadcast use vstd::seq_lib::group_filter_ensures;

    assert forall|i: int|
        0 <= i < d2.taggings.len() implies has_entry(d2.entries, (#[trigger] d2.taggings[i]).diary_id)
        && has_tag_id(d2.tags, d2.taggings[i].tag_id) by {
        let k = lemma_filter_elem_index(d.taggings, keep_t, i);
        let t = d.taggings[k];
        let j = choose|j: int| 0 <= j < d.entries.len() && d.entries[j].id == t.diary_id;
        assert(keep_e(d.entries[j]));
        assert(d2.entries.contains(d.entries[j]));
        let m = choose|m: int| 0 <= m < d2.entries.len() && d2.entries[m] == d.entries[j];
        assert(d2.entries[m].id == t.diary_id);
    }
    assert forall|i: int|
        0 <= i < d2.relationships.len() implies has_entry(
        d2.entries,
        (#[trigger] d2.relationships[i]).parent_id,
    ) && has_entry(d2.entries, d2.relationships[i].child_id) by {
        let k = lemma_filter_elem_index(d.relationships, keep_r, i);
        let r = d.relationships[k];
        let j1 = choose|j: int| 0 <= j < d.entries.len() && d.entries[j].id == r.parent_id;
        assert(keep_e(d.entries[j1]));
        assert(d2.entries.contains(d.entries[j1]));
        let m1 = choose|m: int| 0 <= m < d2.entries.len() && d2.entries[m] == d.entries[j1];
        assert(d2.entries[m1].id == r.parent_id);
        let j2 = choose|j: int| 0 <= j < d.entries.len() && d.entries[j].id == r.child_id;
        assert(keep_e(d.entries[j2]));
        assert(d2.entries.contains(d.entries[j2]));
        let m2 = choose|m: int| 0 <= m < d2.entries.len() && d2.entries[m] == d.entries[j2];
        assert(d2.entries[m2].id == r.child_id);
    }
    if has_entry(d2.entries, id) {
        let i = choose|i: int| 0 <= i < d2.entries.len() && d2.entries[i].id == id;
        assert(keep_e(d2.entries[i]));
    }
}

/// The empty store.
pub open spec fn empty_db() -> DbV {
    DbV {
        entries: Seq::empty(),
        tags: Seq::empty(),
        taggings: Seq::empty(),
        relationships: Seq::empty(),
    }
}

} // verus!
