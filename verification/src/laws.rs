//! The store's cross-operation guarantees, proved against the model in
//! [`crate::model`].
//!
//! Each law here is stated over the transition and query functions that the
//! operations of [`crate::store::DiaryDB`] are specified with, so it holds of
//! every run of the store. The envelope cipher's round trip is stated on the
//! cipher itself (see [`crate::crypto`]), and the listing order is an
//! `ensures` of `list_diaries`.

use vstd::prelude::*;

verus! {

use crate::model::{
    apply_tags, delete_tx, entry_with, graph_edges, graph_nodes, has_entry, has_tag_id,
    has_tag_name, has_tagging, insert_entry, lemma_apply_tags_names, lemma_apply_tags_taggings,
    lemma_apply_tags_wf, lemma_delete_tx_wf, lemma_filter_elem_index, lemma_insert_entry_wf,
    lemma_save_tx_wf, lemma_update_entries_frame, save_id, save_tx, tag_by_id, tag_by_name,
    tag_names_of, taggings_of, update_entries, wf_db, DbV, EntryV, RelV, TagV, TaggingV,
};

/// When every tagging of an entry resolves, through the tag table, to one of
/// the given names — and every given name resolves to a tagging — the entry's
/// tag-name set is exactly the set of given names.
proof fn lemma_tag_names_set(d: DbV, eid: Seq<char>, names: Seq<Seq<char>>)
    requires
        wf_db(d),
        forall|k: int| 0 <= k < names.len() ==> has_tag_name(d.tags, #[trigger] names[k]),
        forall|tid: Seq<char>|
            #[trigger] has_tagging(d.taggings, eid, tid) <==> (exists|k: int|
                0 <= k < names.len() && has_tag_name(d.tags, #[trigger] names[k]) && tag_by_name(
                    d.tags,
                    names[k],
                ).id == tid),
    ensures
        tag_names_of(d, eid).to_set() == names.to_set(),
{
    broadcast use vstd::seq_lib::group_filter_ensures;

    let keep = |t: TaggingV| t.diary_id == eid;
    let tof = taggings_of(d, eid);
    let tnames = tag_names_of(d, eid);
    assert forall|x: Seq<char>| tnames.to_set().contains(x) implies names.to_set().contains(
        x,
    ) by {
        let i = choose|i: int| 0 <= i < tnames.len() && tnames[i] == x;
        let t = tof[i];
        let j = lemma_filter_elem_index(d.taggings, keep, i);
        assert(t.diary_id == eid);
        assert(has_tagging(d.taggings, eid, t.tag_id));
        let k = choose|k: int|
            0 <= k < names.len() && has_tag_name(d.tags, #[trigger] names[k]) && tag_by_name(
                d.tags,
                names[k],
            ).id == t.tag_id;
        let a = choose|a: int| 0 <= a < d.tags.len() && d.tags[a].name == names[k];
        assert(has_tag_id(d.tags, t.tag_id));
        let b = choose|b: int| 0 <= b < d.tags.len() && d.tags[b].id == t.tag_id;
        assert(b == a);
        assert(x == tag_by_id(d.tags, t.tag_id).name);
        assert(x == names[k]);
        assert(names.to_set().contains(names[k]));
    }
    assert forall|x: Seq<char>| names.to_set().contains(x) implies tnames.to_set().contains(
        x,
    ) by {
        let k = choose|k: int| 0 <= k < names.len() && names[k] == x;
        assert(has_tag_name(d.tags, names[k]));
        let tid = tag_by_name(d.tags, names[k]).id;
        assert(has_tagging(d.taggings, eid, tid));
        let j = choose|j: int|
            0 <= j < d.taggings.len() && d.taggings[j].diary_id == eid && d.taggings[j].tag_id
                == tid;
        assert(keep(d.taggings[j]));
        assert(tof.contains(d.taggings[j]));
        let i = choose|i: int| 0 <= i < tof.len() && tof[i] == d.taggings[j];
        let a = choose|a: int| 0 <= a < d.tags.len() && d.tags[a].name == names[k];
        let b = choose|b: int| 0 <= b < d.tags.len() && d.tags[b].id == tid;
        assert(b == a);
        assert(tnames[i] == tag_by_id(d.tags, tid).name);
        assert(tnames[i] == x);
        assert(tnames.contains(x));
    }
    assert(tnames.to_set() =~= names.to_set());
}

/// Tag uniqueness: after any successful save that was given a tag name `t`,
/// the tag table holds exactly one row named `t`.
pub proof fn law_tag_uniqueness(
    d: DbV,
    existing: Option<Seq<char>>,
    fresh_id: Seq<char>,
    title: Seq<char>,
    body: Seq<char>,
    now: Seq<char>,
    names: Seq<Seq<char>>,
    mints: Seq<Seq<char>>,
    d2: DbV,
    t: Seq<char>,
)
    requires
        wf_db(d),
        save_tx(d, existing, fresh_id, title, body, now, names, mints) == Some(d2),
        names.contains(t),
    ensures
        exists|i: int|
            0 <= i < d2.tags.len() && (#[trigger] d2.tags[i]).name == t && (forall|j: int|
                0 <= j < d2.tags.len() && (#[trigger] d2.tags[j]).name == t ==> j == i),
{
    lemma_save_tx_wf(d, existing, fresh_id, title, body, now, names, mints);
    let kk = choose|kk: int| 0 <= kk < names.len() && names[kk] == t;
    match existing {
        Some(x) => {
            let keep = |tg: TaggingV| tg.diary_id != x;
            let tgs0 = d.taggings.filter(keep);
            lemma_apply_tags_names(d.tags, tgs0, has_entry(d.entries, x), x, names, mints);
        },
        None => {
            lemma_apply_tags_names(d.tags, d.taggings, true, fresh_id, names, mints);
        },
    }
    assert(has_tag_name(d2.tags, t));
    let i = choose|i: int| 0 <= i < d2.tags.len() && d2.tags[i].name == t;
    assert forall|j: int| 0 <= j < d2.tags.len() && (#[trigger] d2.tags[j]).name == t implies j
        == i by {}
}

/// The taggings-characterisation of a save, packaged for the laws below: the
/// saved entry's taggings resolve exactly to the given names.
proof fn lemma_save_taggings(
    d: DbV,
    existing: Option<Seq<char>>,
    fresh_id: Seq<char>,
    title: Seq<char>,
    body: Seq<char>,
    now: Seq<char>,
    names: Seq<Seq<char>>,
    mints: Seq<Seq<char>>,
    d2: DbV,
)
    requires
        wf_db(d),
        (existing matches Some(x) ==> has_entry(d.entries, x)),
        save_tx(d, existing, fresh_id, title, body, now, names, mints) == Some(d2),
    ensures
        forall|k: int| 0 <= k < names.len() ==> has_tag_name(d2.tags, #[trigger] names[k]),
        forall|tid: Seq<char>|
            #[trigger] has_tagging(d2.taggings, save_id(existing, fresh_id), tid) <==> (exists|
                k: int,
            |
                0 <= k < names.len() && has_tag_name(d2.tags, #[trigger] names[k]) && tag_by_name(
                    d2.tags,
                    names[k],
                ).id == tid),
{
    let eid = save_id(existing, fresh_id);
    match existing {
        Some(x) => {
            let keep = |tg: TaggingV| tg.diary_id != x;
            let tgs0 = d.taggings.filter(keep);
            let q = |a: TaggingV, b: TaggingV| !(a.diary_id == b.diary_id && a.tag_id == b.tag_id);
            assert forall|i: int, j: int| 0 <= i < j < d.taggings.len() implies #[trigger] q(
                d.taggings[i],
                d.taggings[j],
            ) by {}
            crate::model::lemma_filter_pairwise(d.taggings, keep, q);
            assert forall|i: int, j: int|
                0 <= i < j < tgs0.len() implies !((#[trigger] tgs0[i]).diary_id == (
            #[trigger] tgs0[j]).diary_id && tgs0[i].tag_id == tgs0[j].tag_id) by {
                assert(q(tgs0[i], tgs0[j]));
            }
            assert forall|i: int|
                0 <= i < tgs0.len() implies has_entry(d.entries, (#[trigger] tgs0[i]).diary_id)
                && has_tag_id(d.tags, tgs0[i].tag_id) by {
                let k = lemma_filter_elem_index(d.taggings, keep, i);
            }
            lemma_apply_tags_names(d.tags, tgs0, has_entry(d.entries, x), x, names, mints);
            lemma_apply_tags_taggings(
                d.tags,
                tgs0,
                d.entries,
                has_entry(d.entries, x),
                x,
                names,
                mints,
            );
            assert forall|tid: Seq<char>| !(#[trigger] has_tagging(tgs0, x, tid)) by {
                broadcast use vstd::seq_lib::group_filter_ensures;

                if has_tagging(tgs0, x, tid) {
                    let i = choose|i: int|
                        0 <= i < tgs0.len() && tgs0[i].diary_id == x && tgs0[i].tag_id == tid;
                    assert(keep(tgs0[i]));
                }
            }
        },
        None => {
            let e = EntryV {
                id: fresh_id,
                title: title,
                body: body,
                created_at: now,
                updated_at: now,
            };
            let es = insert_entry(d.entries, e);
            lemma_insert_entry_wf(d.entries, e);
            assert forall|i: int|
                0 <= i < d.taggings.len() implies has_entry(
                es,
                (#[trigger] d.taggings[i]).diary_id,
            ) && has_tag_id(d.tags, d.taggings[i].tag_id) by {
                assert(has_entry(d.entries, d.taggings[i].diary_id));
            }
            lemma_apply_tags_names(d.tags, d.taggings, true, fresh_id, names, mints);
            lemma_apply_tags_taggings(d.tags, d.taggings, es, true, fresh_id, names, mints);
            assert forall|tid: Seq<char>| !(#[trigger] has_tagging(d.taggings, fresh_id, tid)) by {
                if has_tagging(d.taggings, fresh_id, tid) {
                    let i = choose|i: int|
                        0 <= i < d.taggings.len() && d.taggings[i].diary_id == fresh_id
                            && d.taggings[i].tag_id == tid;
                    assert(has_entry(d.entries, fresh_id));
                }
            }
        },
    }
}

/// Update replaces the tag set: a save on an existing entry leaves it with
/// exactly the given tag names — the previous assignments are gone.
pub proof fn law_update_replaces_tags(
    d: DbV,
    x: Seq<char>,
    fresh_id: Seq<char>,
    title: Seq<char>,
    body: Seq<char>,
    now: Seq<char>,
    names: Seq<Seq<char>>,
    mints: Seq<Seq<char>>,
    d2: DbV,
)
    requires
        wf_db(d),
        has_entry(d.entries, x),
        save_tx(d, Some(x), fresh_id, title, body, now, names, mints) == Some(d2),
    ensures
        tag_names_of(d2, x).to_set() == names.to_set(),
{
    lemma_save_tx_wf(d, Some(x), fresh_id, title, body, now, names, mints);
    lemma_save_taggings(d, Some(x), fresh_id, title, body, now, names, mints, d2);
    assert forall|tid: Seq<char>|
        #[trigger] has_tagging(d2.taggings, x, tid) <==> (exists|k: int|
            0 <= k < names.len() && has_tag_name(d2.tags, #[trigger] names[k]) && tag_by_name(
                d2.tags,
                names[k],
            ).id == tid) by {
        assert(has_tagging(d2.taggings, save_id(Some(x), fresh_id), tid) <==> (exists|k: int|
            0 <= k < names.len() && has_tag_name(d2.tags, #[trigger] names[k]) && tag_by_name(
                d2.tags,
                names[k],
            ).id == tid));
    }
    lemma_tag_names_set(d2, x, names);
}

/// Entry round trip: after any successful save, the saved entry exists, its
/// stored title and body envelope are exactly what was given, and its tag
/// set is exactly the given names. (Composed with the cipher's round trip —
/// the envelope a save stores decrypts to the given content — this is the
/// save-then-get guarantee.)
pub proof fn law_entry_round_trip(
    d: DbV,
    existing: Option<Seq<char>>,
    fresh_id: Seq<char>,
    title: Seq<char>,
    body: Seq<char>,
    now: Seq<char>,
    names: Seq<Seq<char>>,
    mints: Seq<Seq<char>>,
    d2: DbV,
)
    requires
        wf_db(d),
        (existing matches Some(x) ==> has_entry(d.entries, x)),
        save_tx(d, existing, fresh_id, title, body, now, names, mints) == Some(d2),
    ensures
        has_entry(d2.entries, save_id(existing, fresh_id)),
        entry_with(d2.entries, save_id(existing, fresh_id)).title == title,
        entry_with(d2.entries, save_id(existing, fresh_id)).body == body,
        tag_names_of(d2, save_id(existing, fresh_id)).to_set() == names.to_set(),
{
    lemma_save_tx_wf(d, existing, fresh_id, title, body, now, names, mints);
    let eid = save_id(existing, fresh_id);
    match existing {
        Some(x) => {
            let es2 = update_entries(d.entries, x, title, body, now);
            lemma_update_entries_frame(d.entries, x, title, body, now);
            assert(has_entry(es2, x));
            let i = choose|i: int| 0 <= i < d.entries.len() && d.entries[i].id == x;
            assert(es2[i].id == x && es2[i].title == title && es2[i].body == body);
            let j = choose|j: int| 0 <= j < es2.len() && es2[j].id == x;
            assert(es2[j].id == d.entries[j].id);
            assert(j == i);
            assert(entry_with(es2, x) == es2[i]);
        },
        None => {
            let e = EntryV {
                id: fresh_id,
                title: title,
                body: body,
                created_at: now,
                updated_at: now,
            };
            lemma_insert_entry_wf(d.entries, e);
            let es2 = insert_entry(d.entries, e);
            assert(has_entry(es2, fresh_id));
            crate::model::lemma_insert_pos_props(d.entries, now);
            let pos = crate::model::insert_pos(d.entries, now);
            assert(es2[pos] == e);
            let j = choose|j: int| 0 <= j < es2.len() && es2[j].id == fresh_id;
            assert(j == pos);
            assert(entry_with(es2, fresh_id) == e);
        },
    }
    lemma_save_taggings(d, existing, fresh_id, title, body, now, names, mints, d2);
    lemma_tag_names_set(d2, eid, names);
}

/// Cascade on entry delete: afterwards no tagging references the entry and no
/// relationship has it as parent or child, and the entry itself is gone.
pub proof fn law_delete_cascade(d: DbV, id: Seq<char>)
    requires
        wf_db(d),
    ensures
        forall|i: int|
            0 <= i < delete_tx(d, id).taggings.len() ==> (#[trigger] delete_tx(
                d,
                id,
            ).taggings[i]).diary_id != id,
        forall|i: int|
            0 <= i < delete_tx(d, id).relationships.len() ==> (#[trigger] delete_tx(
                d,
                id,
            ).relationships[i]).parent_id != id && delete_tx(d, id).relationships[i].child_id
                != id,
        !has_entry(delete_tx(d, id).entries, id),
{
    broadcast use vstd::seq_lib::group_filter_ensures;

    lemma_delete_tx_wf(d, id);
    let keep_t = |t: TaggingV| t.diary_id != id;
    let keep_r = |r: RelV| r.parent_id != id && r.child_id != id;
    let d2 = delete_tx(d, id);
    assert forall|i: int|
        0 <= i < d2.taggings.len() implies (#[trigger] d2.taggings[i]).diary_id != id by {
        assert(keep_t(d2.taggings[i]));
    }
    assert forall|i: int|
        0 <= i < d2.relationships.len() implies (#[trigger] d2.relationships[i]).parent_id != id
        && d2.relationships[i].child_id != id by {
        assert(keep_r(d2.relationships[i]));
    }
}

/// An identifier that appears among the graph's nodes.
pub open spec fn graph_has_node_id(d: DbV, x: Seq<char>) -> bool {
    exists|a: int| 0 <= a < graph_nodes(d).len() && (#[trigger] graph_nodes(d)[a]).id == x
}

/// Graph closure: both endpoints of every edge of the projection appear among
/// its nodes.
pub proof fn law_graph_closure(d: DbV)
    requires
        wf_db(d),
    ensures
        forall|i: int|
            0 <= i < graph_edges(d).len() ==> graph_has_node_id(
                d,
                (#[trigger] graph_edges(d)[i]).source,
            ) && graph_has_node_id(d, graph_edges(d)[i].target),
{
    let ns = graph_nodes(d);
    let es = graph_edges(d);
    let en = d.entries.len() as int;
    let tn = d.taggings.len() as int;
    assert forall|i: int|
        0 <= i < es.len() implies graph_has_node_id(d, (#[trigger] es[i]).source)
        && graph_has_node_id(d, es[i].target) by {
        if i < tn {
            let t = d.taggings[i];
            assert(es[i].source == t.diary_id && es[i].target == t.tag_id);
            assert(has_entry(d.entries, t.diary_id));
            let j = choose|j: int| 0 <= j < d.entries.len() && d.entries[j].id == t.diary_id;
            assert(ns[j].id == t.diary_id);
            assert(has_tag_id(d.tags, t.tag_id));
            let j2 = choose|j2: int| 0 <= j2 < d.tags.len() && d.tags[j2].id == t.tag_id;
            assert(ns[en + j2].id == t.tag_id);
        } else {
            let r = d.relationships[i - tn];
            assert(es[i].source == r.child_id && es[i].target == r.parent_id);
            assert(has_entry(d.entries, r.child_id));
            let j = choose|j: int| 0 <= j < d.entries.len() && d.entries[j].id == r.child_id;
            assert(ns[j].id == r.child_id);
            assert(has_entry(d.entries, r.parent_id));
            let j2 = choose|j2: int| 0 <= j2 < d.entries.len() && d.entries[j2].id == r.parent_id;
            assert(ns[j2].id == r.parent_id);
        }
    }
}

} // verus!
