//! The relational store.
//!
//! [`DiaryDB`] holds the four tables of the schema — entries, tags, taggings
//! and relationships — and passes entry bodies through the envelope cipher on
//! the way in and out. Every operation is specified against the model in
//! [`crate::model`]: the upsert is [`crate::model::save_tx`], the cascade is
//! [`crate::model::delete_tx`], and the reads are the model's query
//! functions. [`DiaryDB::wf`] is the invariant every operation preserves.
//!
//! Concurrency is the caller's affair: the store is a plain value behind
//! `&`/`&mut`, so the borrow rules serialise operations end to end — the
//! intended posture of one process-wide lock held for each operation's
//! duration.

use vstd::prelude::*;

verus! {

use crate::crypto::{decrypt_spec, Crypto, CryptoError};
use crate::envelope::parse_envelope_spec;
use vstd::utf8::encode_utf8;
use crate::model::{
    add_tagging, apply_tags, delete_tx, empty_db, entries_sorted, entry_tagged, entry_with, graph_edges,
    graph_nodes, has_entry, has_rel_id, has_tag_id, has_tag_name, has_tagging, insert_entry,
    insert_pos, lemma_apply_tags_all_present, lemma_delete_tx_wf, lemma_entry_with_is,
    lemma_filter_elem_index, lemma_filter_pairwise,
    lemma_filter_push, lemma_filter_rels_wf, lemma_insert_pos_props, lemma_save_tx_wf,
    lemma_tag_by_id_is, lemma_tag_by_name_is, lex_le, rels_of, save_id, save_tx, tag_by_id,
    tag_by_name, tag_edge_id, tag_edge_label, tag_names_of, tagged_entries, taggings_of,
    update_entries, DbV, EdgeV, EntryV, NodeV, PropV, RelV, TagV, TaggingV,
};
use vstd::string::StrSliceExecFns;

/// An entry row as persisted: the body is a ciphertext envelope.
pub struct EntryRow {
    pub id: String,
    pub title: String,
    pub body_envelope: String,
    pub created_at: String,
    pub updated_at: String,
}

impl View for EntryRow {
    type V = EntryV;

    open spec fn view(&self) -> EntryV {
        EntryV {
            id: self.id@,
            title: self.title@,
            body: self.body_envelope@,
            created_at: self.created_at@,
            updated_at: self.updated_at@,
        }
    }
}

impl DeepView for EntryRow {
    type V = EntryV;

    open spec fn deep_view(&self) -> EntryV {
        self.view()
    }
}

/// A tag row.
pub struct Tag {
    pub id: String,
    pub name: String,
}

impl View for Tag {
    type V = TagV;

    open spec fn view(&self) -> TagV {
        TagV { id: self.id@, name: self.name@ }
    }
}

impl DeepView for Tag {
    type V = TagV;

    open spec fn deep_view(&self) -> TagV {
        self.view()
    }
}

/// A tagging row: one entry/tag assignment.
pub struct Tagging {
    pub diary_id: String,
    pub tag_id: String,
}

impl View for Tagging {
    type V = TaggingV;

    open spec fn view(&self) -> TaggingV {
        TaggingV { diary_id: self.diary_id@, tag_id: self.tag_id@ }
    }
}

impl DeepView for Tagging {
    type V = TaggingV;

    open spec fn deep_view(&self) -> TaggingV {
        self.view()
    }
}

/// A relationship row: a directed, typed link between two entries.
pub struct Relationship {
    pub id: String,
    pub parent_id: String,
    pub child_id: String,
    pub relationship_type: String,
    pub created_at: String,
}

impl View for Relationship {
    type V = RelV;

    open spec fn view(&self) -> RelV {
        RelV {
            id: self.id@,
            parent_id: self.parent_id@,
            child_id: self.child_id@,
            relationship_type: self.relationship_type@,
            created_at: self.created_at@,
        }
    }
}

impl DeepView for Relationship {
    type V = RelV;

    open spec fn deep_view(&self) -> RelV {
        self.view()
    }
}

/// A decrypted entry as handed to callers.
#[derive(Debug, PartialEq)]
pub struct DiaryEntry {
    pub id: String,
    pub title: String,
    pub content: String,
    pub created_at: String,
    pub updated_at: String,
    pub tags: Vec<String>,
}

/// Whether chrono's RFC 3339 parser accepts the string: a function of the
/// characters alone.
pub uninterp spec fn is_rfc3339(s: Seq<char>) -> bool;

/// How a stored timestamp is surfaced to callers: verbatim when it parses as
/// RFC 3339; otherwise the forgiving fallback substitutes the current
/// instant, which itself is RFC 3339. (Every timestamp the store writes
/// parses, so the fallback never fires on the store's own rows.)
pub open spec fn timestamp_out(stored: Seq<char>, out: Seq<char>) -> bool {
    if is_rfc3339(stored) {
        out == stored
    } else {
        is_rfc3339(out)
    }
}

/// How a returned [`DiaryEntry`] relates to the stored row it came from: the
/// identifier and title verbatim, the content exactly what the stored
/// envelope decrypts to, the timestamps surfaced per [`timestamp_out`], and
/// the tag names as the model joins them.
pub open spec fn entry_output(d: DbV, key: Seq<u8>, e: EntryV, out: DiaryEntry) -> bool {
    &&& out.id@ == e.id
    &&& out.title@ == e.title
    &&& decrypt_spec(key, e.body) == Some(out.content@)
    &&& timestamp_out(e.created_at, out.created_at@)
    &&& timestamp_out(e.updated_at, out.updated_at@)
    &&& out.tags.deep_view() == tag_names_of(d, e.id)
}

/// One key/value pair of a graph node's property bag.
pub struct Prop {
    pub key: String,
    pub value: String,
}

impl View for Prop {
    type V = PropV;

    open spec fn view(&self) -> PropV {
        PropV { key: self.key@, value: self.value@ }
    }
}

impl DeepView for Prop {
    type V = PropV;

    open spec fn deep_view(&self) -> PropV {
        self.view()
    }
}

/// A graph-projection node: an entry (`node_type` "diary") or a tag
/// (`node_type` "tag").
pub struct GraphNode {
    pub id: String,
    pub label: String,
    pub node_type: String,
    pub properties: Vec<Prop>,
}

impl View for GraphNode {
    type V = NodeV;

    open spec fn view(&self) -> NodeV {
        NodeV {
            id: self.id@,
            label: self.label@,
            node_type: self.node_type@,
            properties: self.properties.deep_view(),
        }
    }
}

impl DeepView for GraphNode {
    type V = NodeV;

    open spec fn deep_view(&self) -> NodeV {
        self.view()
    }
}

/// A graph-projection edge.
pub struct GraphEdge {
    pub id: String,
    pub source: String,
    pub target: String,
    pub label: String,
}

impl View for GraphEdge {
    type V = EdgeV;

    open spec fn view(&self) -> EdgeV {
        EdgeV { id: self.id@, source: self.source@, target: self.target@, label: self.label@ }
    }
}

impl DeepView for GraphEdge {
    type V = EdgeV;

    open spec fn deep_view(&self) -> EdgeV {
        self.view()
    }
}

/// The whole graph projection.
pub struct GraphData {
    pub nodes: Vec<GraphNode>,
    pub edges: Vec<GraphEdge>,
}

/// Why a store operation failed.
#[derive(Clone, Copy, Debug, PartialEq, Eq, Structural)]
pub enum StoreError {
    /// No entry with the given identifier.
    NotFound,
    /// A uniqueness or referential-integrity constraint refused the write.
    Conflict,
    /// The envelope cipher failed.
    Crypto(CryptoError),
}

impl StoreError {
    /// The description [`StoreError::message`] returns for each failure.
    pub open spec fn message_view(&self) -> Seq<char> {
        match self {
            StoreError::NotFound => "no such entry"@,
            StoreError::Conflict => "constraint violation"@,
            StoreError::Crypto(e) => e.message_view(),
        }
    }

    /// A short description of the failure.
    pub fn message(&self) -> (r: &'static str)
        ensures
            r@ == self.message_view(),
    {
        match self {
            StoreError::NotFound => "no such entry",
            StoreError::Conflict => "constraint violation",
            StoreError::Crypto(e) => e.message(),
        }
    }
}

/// Relies on chrono's `Utc::now().to_rfc3339()`: the current instant written
/// in RFC 3339 form with timezone, which chrono's own RFC 3339 parser
/// accepts.
#[verifier::external_body]
fn now_rfc3339() -> (r: String)
    ensures
        r@.len() > 0,
        is_rfc3339(r@),
{
    chrono::Utc::now().to_rfc3339()
}

/// Relies on chrono's `DateTime::parse_from_rfc3339`: whether it accepts a
/// string depends on the characters alone.
#[verifier::external_body]
fn parses_rfc3339(s: &str) -> (r: bool)
    ensures
        r == is_rfc3339(s@),
{
    chrono::DateTime::parse_from_rfc3339(s).is_ok()
}

/// Surface a stored timestamp: verbatim when it parses as RFC 3339, the
/// current instant otherwise (the forgiving fallback for corrupted rows).
fn timestamp_or_now(s: &String) -> (r: String)
    ensures
        timestamp_out(s@, r@),
{
    if parses_rfc3339(s.as_str()) {
        s.clone()
    } else {
        now_rfc3339()
    }
}

/// Relies on uuid's `Uuid::new_v4().to_string()`: a fresh random v4 UUID in
/// its canonical 36-character hyphenated form.
#[verifier::external_body]
fn new_uuid() -> (r: String)
    ensures
        r@.len() == 36,
{
    uuid::Uuid::new_v4().to_string()
}

/// Character-for-character string equality.
fn str_eq(a: &str, b: &str) -> (r: bool)
    ensures
        r == (a@ == b@),
{
    let n = a.unicode_len();
    let m = b.unicode_len();
    if n != m {
        return false;
    }
    let mut i: usize = 0;
    while i < n
        invariant
            n == a@.len(),
            n == b@.len(),
            i <= n,
            forall|k: int| 0 <= k < i ==> a@[k] == b@[k],
        decreases n - i,
    {
        if a.get_char(i) != b.get_char(i) {
            return false;
        }
        i = i + 1;
    }
    proof {
        assert(a@ =~= b@);
    }
    true
}

/// Lexicographic comparison, matching [`lex_le`].
fn str_lex_le(a: &str, b: &str) -> (r: bool)
    ensures
        r == lex_le(a@, b@),
{
    let n = a.unicode_len();
    let m = b.unicode_len();
    let mut i: usize = 0;
    proof {
        assert(a@.skip(0) =~= a@);
        assert(b@.skip(0) =~= b@);
    }
    loop
        invariant
            n == a@.len(),
            m == b@.len(),
            i <= n,
            i <= m,
            lex_le(a@, b@) == lex_le(a@.skip(i as int), b@.skip(i as int)),
        decreases n - i,
    {
        if i >= n {
            proof {
                assert(a@.skip(i as int).len() == 0);
            }
            return true;
        }
        if i >= m {
            proof {
                assert(b@.skip(i as int).len() == 0);
                assert(a@.skip(i as int).len() > 0);
            }
            return false;
        }
        let ca = a.get_char(i);
        let cb = b.get_char(i);
        proof {
            assert(a@.skip(i as int)[0] == a@[i as int]);
            assert(b@.skip(i as int)[0] == b@[i as int]);
        }
        if (ca as u32) < (cb as u32) {
            return true;
        }
        if (ca as u32) > (cb as u32) {
            return false;
        }
        proof {
            assert(a@.skip(i as int).drop_first() =~= a@.skip(i as int + 1));
            assert(b@.skip(i as int).drop_first() =~= b@.skip(i as int + 1));
        }
        i = i + 1;
    }
}

/// The identifier argument of a save, viewed.
pub open spec fn opt_id_view(id: Option<&str>) -> Option<Seq<char>> {
    match id {
        Some(s) => Some(s@),
        None => None,
    }
}

fn vec_find_tag_by_name(ts: &Vec<Tag>, name: &str) -> (r: Option<usize>)
    ensures
        (match r {
            Some(i) => i < ts.deep_view().len() && ts.deep_view()[i as int].name == name@,
            None => !has_tag_name(ts.deep_view(), name@),
        }),
        (r is Some) == has_tag_name(ts.deep_view(), name@),
{
    let n = ts.len();
    let mut i: usize = 0;
    while i < n
        invariant
            n == ts.deep_view().len(),
            i <= n,
            forall|k: int| 0 <= k < i ==> (#[trigger] ts.deep_view()[k].name) != name@,
        decreases n - i,
    {
        proof {
            assert(ts.deep_view()[i as int] == ts@[i as int]@);
        }
        if str_eq(ts[i].name.as_str(), name) {
            return Some(i);
        }
        i = i + 1;
    }
    proof {
        if has_tag_name(ts.deep_view(), name@) {
            let k = choose|k: int|
                0 <= k < ts.deep_view().len() && ts.deep_view()[k].name == name@;
            assert(false);
        }
    }
    None
}

fn vec_find_tag_by_id(ts: &Vec<Tag>, id: &str) -> (r: Option<usize>)
    ensures
        (match r {
            Some(i) => i < ts.deep_view().len() && ts.deep_view()[i as int].id == id@,
            None => !has_tag_id(ts.deep_view(), id@),
        }),
        (r is Some) == has_tag_id(ts.deep_view(), id@),
{
    let n = ts.len();
    let mut i: usize = 0;
    while i < n
        invariant
            n == ts.deep_view().len(),
            i <= n,
            forall|k: int| 0 <= k < i ==> (#[trigger] ts.deep_view()[k].id) != id@,
        decreases n - i,
    {
        proof {
            assert(ts.deep_view()[i as int] == ts@[i as int]@);
        }
        if str_eq(ts[i].id.as_str(), id) {
            return Some(i);
        }
        i = i + 1;
    }
    proof {
        if has_tag_id(ts.deep_view(), id@) {
            let k = choose|k: int| 0 <= k < ts.deep_view().len() && ts.deep_view()[k].id == id@;
            assert(false);
        }
    }
    None
}

fn vec_has_tagging(tgs: &Vec<Tagging>, eid: &str, tid: &str) -> (r: bool)
    ensures
        r == has_tagging(tgs.deep_view(), eid@, tid@),
{
    let n = tgs.len();
    let mut i: usize = 0;
    while i < n
        invariant
            n == tgs.deep_view().len(),
            i <= n,
            forall|k: int|
                0 <= k < i ==> !((#[trigger] tgs.deep_view()[k]).diary_id == eid@
                    && tgs.deep_view()[k].tag_id == tid@),
        decreases n - i,
    {
        let t = &tgs[i];
        proof {
            assert(tgs.deep_view()[i as int] == tgs@[i as int]@);
        }
        if str_eq(t.diary_id.as_str(), eid) && str_eq(t.tag_id.as_str(), tid) {
            return true;
        }
        i = i + 1;
    }
    proof {
        if has_tagging(tgs.deep_view(), eid@, tid@) {
            let k = choose|k: int|
                0 <= k < tgs.deep_view().len() && tgs.deep_view()[k].diary_id == eid@
                    && tgs.deep_view()[k].tag_id == tid@;
            assert(false);
        }
    }
    false
}

fn vec_has_entry(es: &Vec<EntryRow>, id: &str) -> (r: bool)
    ensures
        r == has_entry(es.deep_view(), id@),
{
    let n = es.len();
    let mut i: usize = 0;
    while i < n
        invariant
            n == es.deep_view().len(),
            i <= n,
            forall|k: int| 0 <= k < i ==> (#[trigger] es.deep_view()[k].id) != id@,
        decreases n - i,
    {
        proof {
            assert(es.deep_view()[i as int] == es@[i as int]@);
        }
        if str_eq(es[i].id.as_str(), id) {
            return true;
        }
        i = i + 1;
    }
    proof {
        if has_entry(es.deep_view(), id@) {
            let k = choose|k: int| 0 <= k < es.deep_view().len() && es.deep_view()[k].id == id@;
            assert(false);
        }
    }
    false
}

#[verifier::loop_isolation(false)]
fn check_entry_ids_unique(es: &Vec<EntryRow>) -> (r: bool)
    ensures
        r == (forall|a: int, b: int|
            0 <= a < b < es.deep_view().len() ==> (#[trigger] es.deep_view()[a].id) != (
            #[trigger] es.deep_view()[b].id)),
{
    let n = es.len();
    let mut i: usize = 0;
    while i < n
        invariant
            i <= n,
            forall|a: int, b: int|
                0 <= a < b < n && a < i ==> (#[trigger] es.deep_view()[a].id) != (
                #[trigger] es.deep_view()[b].id),
        decreases n - i,
    {
        let mut j: usize = i + 1;
        while j < n
            invariant
                i < j <= n,
                forall|b: int|
                    i < b < j ==> (es.deep_view()[i as int].id) != (
                    #[trigger] es.deep_view()[b].id),
            decreases n - j,
        {
            proof {
                assert(es.deep_view()[i as int] == es@[i as int]@);
                assert(es.deep_view()[j as int] == es@[j as int]@);
            }
            if str_eq(es[i].id.as_str(), es[j].id.as_str()) {
                proof {
                    if forall|a: int, b: int|
                        0 <= a < b < es.deep_view().len() ==> (#[trigger] es.deep_view()[a].id)
                            != (#[trigger] es.deep_view()[b].id) {
                        assert(es.deep_view()[i as int].id != es.deep_view()[j as int].id);
                    }
                }
                return false;
            }
            j = j + 1;
        }
        i = i + 1;
    }
    true
}

#[verifier::loop_isolation(false)]
fn check_tags_unique(ts: &Vec<Tag>) -> (r: bool)
    ensures
        r == ((forall|a: int, b: int|
            0 <= a < b < ts.deep_view().len() ==> (#[trigger] ts.deep_view()[a].id) != (
            #[trigger] ts.deep_view()[b].id)) && (forall|a: int, b: int|
            0 <= a < b < ts.deep_view().len() ==> (#[trigger] ts.deep_view()[a].name) != (
            #[trigger] ts.deep_view()[b].name))),
{
    let n = ts.len();
    let mut i: usize = 0;
    while i < n
        invariant
            i <= n,
            forall|a: int, b: int|
                0 <= a < b < n && a < i ==> (#[trigger] ts.deep_view()[a].id) != (
                #[trigger] ts.deep_view()[b].id),
            forall|a: int, b: int|
                0 <= a < b < n && a < i ==> (#[trigger] ts.deep_view()[a].name) != (
                #[trigger] ts.deep_view()[b].name),
        decreases n - i,
    {
        let mut j: usize = i + 1;
        while j < n
            invariant
                i < j <= n,
                forall|b: int|
                    i < b < j ==> (ts.deep_view()[i as int].id) != (
                    #[trigger] ts.deep_view()[b].id),
                forall|b: int|
                    i < b < j ==> (ts.deep_view()[i as int].name) != (
                    #[trigger] ts.deep_view()[b].name),
            decreases n - j,
        {
            proof {
                assert(ts.deep_view()[i as int] == ts@[i as int]@);
                assert(ts.deep_view()[j as int] == ts@[j as int]@);
            }
            if str_eq(ts[i].id.as_str(), ts[j].id.as_str()) {
                proof {
                    if forall|a: int, b: int|
                        0 <= a < b < ts.deep_view().len() ==> (#[trigger] ts.deep_view()[a].id)
                            != (#[trigger] ts.deep_view()[b].id) {
                        assert(ts.deep_view()[i as int].id != ts.deep_view()[j as int].id);
                    }
                }
                return false;
            }
            if str_eq(ts[i].name.as_str(), ts[j].name.as_str()) {
                proof {
                    if forall|a: int, b: int|
                        0 <= a < b < ts.deep_view().len() ==> (#[trigger] ts.deep_view()[a].name)
                            != (#[trigger] ts.deep_view()[b].name) {
                        assert(ts.deep_view()[i as int].name != ts.deep_view()[j as int].name);
                    }
                }
                return false;
            }
            j = j + 1;
        }
        i = i + 1;
    }
    true
}

#[verifier::loop_isolation(false)]
fn check_rel_ids_unique(rs: &Vec<Relationship>) -> (r: bool)
    ensures
        r == (forall|a: int, b: int|
            0 <= a < b < rs.deep_view().len() ==> (#[trigger] rs.deep_view()[a].id) != (
            #[trigger] rs.deep_view()[b].id)),
{
    let n = rs.len();
    let mut i: usize = 0;
    while i < n
        invariant
            i <= n,
            forall|a: int, b: int|
                0 <= a < b < n && a < i ==> (#[trigger] rs.deep_view()[a].id) != (
                #[trigger] rs.deep_view()[b].id),
        decreases n - i,
    {
        let mut j: usize = i + 1;
        while j < n
            invariant
                i < j <= n,
                forall|b: int|
                    i < b < j ==> (rs.deep_view()[i as int].id) != (
                    #[trigger] rs.deep_view()[b].id),
            decreases n - j,
        {
            proof {
                assert(rs.deep_view()[i as int] == rs@[i as int]@);
                assert(rs.deep_view()[j as int] == rs@[j as int]@);
            }
            if str_eq(rs[i].id.as_str(), rs[j].id.as_str()) {
                proof {
                    if forall|a: int, b: int|
                        0 <= a < b < rs.deep_view().len() ==> (#[trigger] rs.deep_view()[a].id)
                            != (#[trigger] rs.deep_view()[b].id) {
                        assert(rs.deep_view()[i as int].id != rs.deep_view()[j as int].id);
                    }
                }
                return false;
            }
            j = j + 1;
        }
        i = i + 1;
    }
    true
}

#[verifier::loop_isolation(false)]
fn check_taggings_unique(tgs: &Vec<Tagging>) -> (r: bool)
    ensures
        r == (forall|a: int, b: int|
            0 <= a < b < tgs.deep_view().len() ==> !((#[trigger] tgs.deep_view()[a]).diary_id == (
            #[trigger] tgs.deep_view()[b]).diary_id && tgs.deep_view()[a].tag_id
                == tgs.deep_view()[b].tag_id)),
{
    let n = tgs.len();
    let mut i: usize = 0;
    while i < n
        invariant
            i <= n,
            forall|a: int, b: int|
                0 <= a < b < n && a < i ==> !((#[trigger] tgs.deep_view()[a]).diary_id == (
                #[trigger] tgs.deep_view()[b]).diary_id && tgs.deep_view()[a].tag_id
                    == tgs.deep_view()[b].tag_id),
        decreases n - i,
    {
        let mut j: usize = i + 1;
        while j < n
            invariant
                i < j <= n,
                forall|b: int|
                    i < b < j ==> !((tgs.deep_view()[i as int]).diary_id == (
                    #[trigger] tgs.deep_view()[b]).diary_id && tgs.deep_view()[i as int].tag_id
                        == tgs.deep_view()[b].tag_id),
            decreases n - j,
        {
            proof {
                assert(tgs.deep_view()[i as int] == tgs@[i as int]@);
                assert(tgs.deep_view()[j as int] == tgs@[j as int]@);
            }
            if str_eq(tgs[i].diary_id.as_str(), tgs[j].diary_id.as_str()) && str_eq(
                tgs[i].tag_id.as_str(),
                tgs[j].tag_id.as_str(),
            ) {
                proof {
                    if forall|a: int, b: int|
                        0 <= a < b < tgs.deep_view().len() ==> !((
                        #[trigger] tgs.deep_view()[a]).diary_id == (
                        #[trigger] tgs.deep_view()[b]).diary_id && tgs.deep_view()[a].tag_id
                            == tgs.deep_view()[b].tag_id) {
                        assert(!(tgs.deep_view()[i as int].diary_id
                            == tgs.deep_view()[j as int].diary_id
                            && tgs.deep_view()[i as int].tag_id
                            == tgs.deep_view()[j as int].tag_id));
                    }
                }
                return false;
            }
            j = j + 1;
        }
        i = i + 1;
    }
    true
}

#[verifier::loop_isolation(false)]
fn check_taggings_fk(tgs: &Vec<Tagging>, es: &Vec<EntryRow>, ts: &Vec<Tag>) -> (r: bool)
    ensures
        r == (forall|i: int|
            0 <= i < tgs.deep_view().len() ==> has_entry(
                es.deep_view(),
                (#[trigger] tgs.deep_view()[i]).diary_id,
            ) && has_tag_id(ts.deep_view(), tgs.deep_view()[i].tag_id)),
{
    let n = tgs.len();
    let mut i: usize = 0;
    while i < n
        invariant
            i <= n,
            forall|k: int|
                0 <= k < i ==> has_entry(es.deep_view(), (#[trigger] tgs.deep_view()[k]).diary_id)
                    && has_tag_id(ts.deep_view(), tgs.deep_view()[k].tag_id),
        decreases n - i,
    {
        proof {
            assert(tgs.deep_view()[i as int] == tgs@[i as int]@);
        }
        if !vec_has_entry(es, tgs[i].diary_id.as_str()) {
            proof {
                if forall|k: int|
                    0 <= k < tgs.deep_view().len() ==> has_entry(
                        es.deep_view(),
                        (#[trigger] tgs.deep_view()[k]).diary_id,
                    ) && has_tag_id(ts.deep_view(), tgs.deep_view()[k].tag_id) {
                    assert(has_entry(es.deep_view(), tgs.deep_view()[i as int].diary_id));
                }
            }
            return false;
        }
        if vec_find_tag_by_id(ts, tgs[i].tag_id.as_str()).is_none() {
            proof {
                if forall|k: int|
                    0 <= k < tgs.deep_view().len() ==> has_entry(
                        es.deep_view(),
                        (#[trigger] tgs.deep_view()[k]).diary_id,
                    ) && has_tag_id(ts.deep_view(), tgs.deep_view()[k].tag_id) {
                    assert(has_tag_id(ts.deep_view(), tgs.deep_view()[i as int].tag_id));
                }
            }
            return false;
        }
        i = i + 1;
    }
    true
}

#[verifier::loop_isolation(false)]
fn check_rels_fk(rs: &Vec<Relationship>, es: &Vec<EntryRow>) -> (r: bool)
    ensures
        r == (forall|i: int|
            0 <= i < rs.deep_view().len() ==> has_entry(
                es.deep_view(),
                (#[trigger] rs.deep_view()[i]).parent_id,
            ) && has_entry(es.deep_view(), rs.deep_view()[i].child_id)),
{
    let n = rs.len();
    let mut i: usize = 0;
    while i < n
        invariant
            i <= n,
            forall|k: int|
                0 <= k < i ==> has_entry(es.deep_view(), (#[trigger] rs.deep_view()[k]).parent_id)
                    && has_entry(es.deep_view(), rs.deep_view()[k].child_id),
        decreases n - i,
    {
        proof {
            assert(rs.deep_view()[i as int] == rs@[i as int]@);
        }
        if !vec_has_entry(es, rs[i].parent_id.as_str()) {
            proof {
                if forall|k: int|
                    0 <= k < rs.deep_view().len() ==> has_entry(
                        es.deep_view(),
                        (#[trigger] rs.deep_view()[k]).parent_id,
                    ) && has_entry(es.deep_view(), rs.deep_view()[k].child_id) {
                    assert(has_entry(es.deep_view(), rs.deep_view()[i as int].parent_id));
                }
            }
            return false;
        }
        if !vec_has_entry(es, rs[i].child_id.as_str()) {
            proof {
                if forall|k: int|
                    0 <= k < rs.deep_view().len() ==> has_entry(
                        es.deep_view(),
                        (#[trigger] rs.deep_view()[k]).parent_id,
                    ) && has_entry(es.deep_view(), rs.deep_view()[k].child_id) {
                    assert(has_entry(es.deep_view(), rs.deep_view()[i as int].child_id));
                }
            }
            return false;
        }
        i = i + 1;
    }
    true
}

#[verifier::loop_isolation(false)]
fn check_entries_sorted(es: &Vec<EntryRow>) -> (r: bool)
    ensures
        r == entries_sorted(es.deep_view()),
{
    let n = es.len();
    if n == 0 {
        return true;
    }
    let mut i: usize = 0;
    while i < n - 1
        invariant
            n >= 1,
            i <= n - 1,
            forall|k: int|
                0 <= k < i ==> lex_le(
                    #[trigger] es.deep_view()[k + 1].created_at,
                    es.deep_view()[k].created_at,
                ),
        decreases n - i,
    {
        proof {
            assert(es.deep_view()[i as int] == es@[i as int]@);
            assert(es.deep_view()[i as int + 1] == es@[i as int + 1]@);
        }
        if !str_lex_le(es[i + 1].created_at.as_str(), es[i].created_at.as_str()) {
            proof {
                if entries_sorted(es.deep_view()) {
                    assert(lex_le(
                        es.deep_view()[i as int + 1].created_at,
                        es.deep_view()[i as int].created_at,
                    ));
                }
            }
            return false;
        }
        i = i + 1;
    }
    proof {
        crate::model::lemma_adjacent_sorted(es.deep_view());
    }
    true
}

/// The relational store: the four tables, and the envelope cipher bodies
/// pass through.
pub struct DiaryDB {
    crypto: Crypto,
    entries: Vec<EntryRow>,
    tags: Vec<Tag>,
    taggings: Vec<Tagging>,
    relationships: Vec<Relationship>,
}

impl View for DiaryDB {
    type V = DbV;

    closed spec fn view(&self) -> DbV {
        DbV {
            entries: self.entries.deep_view(),
            tags: self.tags.deep_view(),
            taggings: self.taggings.deep_view(),
            relationships: self.relationships.deep_view(),
        }
    }
}

impl DiaryDB {
    /// The key the store encrypts and decrypts with.
    pub closed spec fn key_view(&self) -> Seq<u8> {
        self.crypto.key_view()
    }

    /// The store's invariant: unique identifiers and tag names, referential
    /// integrity, and the listing order of entries.
    pub open spec fn wf(&self) -> bool {
        crate::model::wf_db(self@)
    }

    /// A fresh, empty store over the given vault key.
    pub fn new(key: [u8; 32]) -> (r: Self)
        ensures
            r@ == empty_db(),
            r.wf(),
            r.key_view() == key@,
    {
        let r = DiaryDB {
            crypto: Crypto::new(key),
            entries: Vec::new(),
            tags: Vec::new(),
            taggings: Vec::new(),
            relationships: Vec::new(),
        };
        proof {
            assert(r@.entries =~= empty_db().entries);
            assert(r@.tags =~= empty_db().tags);
            assert(r@.taggings =~= empty_db().taggings);
            assert(r@.relationships =~= empty_db().relationships);
            assert(r@ =~= empty_db());
        }
        r
    }

    /// Assemble a store from rows read back from persistent storage,
    /// validating the schema's invariants on the way in: unique identifiers
    /// and tag names, unique taggings, referential integrity, and the
    /// newest-first order of entries. Rows that break them are refused as a
    /// whole.
    pub fn from_rows(
        key: [u8; 32],
        entries: Vec<EntryRow>,
        tags: Vec<Tag>,
        taggings: Vec<Tagging>,
        relationships: Vec<Relationship>,
    ) -> (r: Result<Self, StoreError>)
        ensures
            (r is Ok) == crate::model::wf_db(
                DbV {
                    entries: entries.deep_view(),
                    tags: tags.deep_view(),
                    taggings: taggings.deep_view(),
                    relationships: relationships.deep_view(),
                },
            ),
            r matches Ok(db) ==> db@ == (DbV {
                entries: entries.deep_view(),
                tags: tags.deep_view(),
                taggings: taggings.deep_view(),
                relationships: relationships.deep_view(),
            }) && db.wf() && db.key_view() == key@,
            r matches Err(e) ==> e == StoreError::Conflict,
    {
        let ghost d = DbV {
            entries: entries.deep_view(),
            tags: tags.deep_view(),
            taggings: taggings.deep_view(),
            relationships: relationships.deep_view(),
        };
        let ok = check_entry_ids_unique(&entries) && check_tags_unique(&tags)
            && check_rel_ids_unique(&relationships) && check_taggings_unique(&taggings)
            && check_taggings_fk(&taggings, &entries, &tags) && check_rels_fk(
            &relationships,
            &entries,
        ) && check_entries_sorted(&entries);
        if ok {
            proof {
                assert(d.entries == entries.deep_view());
                assert(d.tags == tags.deep_view());
                assert(d.taggings == taggings.deep_view());
                assert(d.relationships == relationships.deep_view());
                assert(crate::model::wf_db(d));
            }
            let db = DiaryDB { crypto: Crypto::new(key), entries, tags, taggings, relationships };
            proof {
                assert(db@ =~= d);
            }
            Ok(db)
        } else {
            proof {
                if crate::model::wf_db(d) {
                    assert(d.entries == entries.deep_view());
                    assert(d.tags == tags.deep_view());
                    assert(d.taggings == taggings.deep_view());
                    assert(d.relationships == relationships.deep_view());
                    assert(forall|a: int, b: int|
                        0 <= a < b < entries.deep_view().len() ==> (
                        #[trigger] entries.deep_view()[a].id) != (
                        #[trigger] entries.deep_view()[b].id));
                    assert(forall|a: int, b: int|
                        0 <= a < b < tags.deep_view().len() ==> (
                        #[trigger] tags.deep_view()[a].id) != (#[trigger] tags.deep_view()[b].id));
                    assert(forall|a: int, b: int|
                        0 <= a < b < tags.deep_view().len() ==> (
                        #[trigger] tags.deep_view()[a].name) != (
                        #[trigger] tags.deep_view()[b].name));
                    assert(forall|a: int, b: int|
                        0 <= a < b < relationships.deep_view().len() ==> (
                        #[trigger] relationships.deep_view()[a].id) != (
                        #[trigger] relationships.deep_view()[b].id));
                    assert(forall|a: int, b: int|
                        0 <= a < b < taggings.deep_view().len() ==> !((
                        #[trigger] taggings.deep_view()[a]).diary_id == (
                        #[trigger] taggings.deep_view()[b]).diary_id && taggings.deep_view()[a].tag_id
                            == taggings.deep_view()[b].tag_id));
                    assert(forall|k: int|
                        0 <= k < taggings.deep_view().len() ==> has_entry(
                            entries.deep_view(),
                            (#[trigger] taggings.deep_view()[k]).diary_id,
                        ) && has_tag_id(tags.deep_view(), taggings.deep_view()[k].tag_id));
                    assert(forall|k: int|
                        0 <= k < relationships.deep_view().len() ==> has_entry(
                            entries.deep_view(),
                            (#[trigger] relationships.deep_view()[k]).parent_id,
                        ) && has_entry(entries.deep_view(), relationships.deep_view()[k].child_id));
                    assert(entries_sorted(entries.deep_view()));
                    assert(false);
                }
            }
            Err(StoreError::Conflict)
        }
    }

    /// Create the schema. The model's tables always exist and all DDL is
    /// declarative ("IF NOT EXISTS"), so this succeeds and touches no row:
    /// initialisation is idempotent.
    pub fn initialize_db(&self) -> (r: Result<(), StoreError>)
        ensures
            r is Ok,
    {
        Ok(())
    }

    fn find_entry_idx(&self, id: &str) -> (r: Option<usize>)
        ensures
            (match r {
                Some(i) => i < self@.entries.len() && self@.entries[i as int].id == id@,
                None => !has_entry(self@.entries, id@),
            }),
            (r is Some) == has_entry(self@.entries, id@),
    {
        let n = self.entries.len();
        let mut i: usize = 0;
        while i < n
            invariant
                n == self@.entries.len(),
                i <= n,
                forall|k: int| 0 <= k < i ==> (#[trigger] self@.entries[k].id) != id@,
            decreases n - i,
        {
            if str_eq(self.entries[i].id.as_str(), id) {
                proof {
                    assert(self@.entries[i as int] == self.entries@[i as int]@);
                }
                return Some(i);
            }
            proof {
                assert(self@.entries[i as int] == self.entries@[i as int]@);
            }
            i = i + 1;
        }
        proof {
            if has_entry(self@.entries, id@) {
                let k = choose|k: int|
                    0 <= k < self@.entries.len() && self@.entries[k].id == id@;
                assert(false);
            }
        }
        None
    }

    fn find_tag_by_name(&self, name: &str) -> (r: Option<usize>)
        ensures
            (match r {
                Some(i) => i < self@.tags.len() && self@.tags[i as int].name == name@,
                None => !has_tag_name(self@.tags, name@),
            }),
            (r is Some) == has_tag_name(self@.tags, name@),
    {
        let n = self.tags.len();
        let mut i: usize = 0;
        while i < n
            invariant
                n == self@.tags.len(),
                i <= n,
                forall|k: int| 0 <= k < i ==> (#[trigger] self@.tags[k].name) != name@,
            decreases n - i,
        {
            if str_eq(self.tags[i].name.as_str(), name) {
                proof {
                    assert(self@.tags[i as int] == self.tags@[i as int]@);
                }
                return Some(i);
            }
            proof {
                assert(self@.tags[i as int] == self.tags@[i as int]@);
            }
            i = i + 1;
        }
        proof {
            if has_tag_name(self@.tags, name@) {
                let k = choose|k: int| 0 <= k < self@.tags.len() && self@.tags[k].name == name@;
                assert(false);
            }
        }
        None
    }

    fn find_rel_idx(&self, id: &str) -> (r: Option<usize>)
        ensures
            (match r {
                Some(i) => i < self@.relationships.len() && self@.relationships[i as int].id
                    == id@,
                None => !has_rel_id(self@.relationships, id@),
            }),
            (r is Some) == has_rel_id(self@.relationships, id@),
    {
        let n = self.relationships.len();
        let mut i: usize = 0;
        while i < n
            invariant
                n == self@.relationships.len(),
                i <= n,
                forall|k: int| 0 <= k < i ==> (#[trigger] self@.relationships[k].id) != id@,
            decreases n - i,
        {
            if str_eq(self.relationships[i].id.as_str(), id) {
                proof {
                    assert(self@.relationships[i as int] == self.relationships@[i as int]@);
                }
                return Some(i);
            }
            proof {
                assert(self@.relationships[i as int] == self.relationships@[i as int]@);
            }
            i = i + 1;
        }
        proof {
            if has_rel_id(self@.relationships, id@) {
                let k = choose|k: int|
                    0 <= k < self@.relationships.len() && self@.relationships[k].id == id@;
                assert(false);
            }
        }
        None
    }

    /// The stored ciphertext envelope of an entry, as it sits at rest; `None`
    /// for an unknown identifier.
    pub fn body_envelope_of(&self, id: &str) -> (r: Option<String>)
        requires
            self.wf(),
        ensures
            (match r {
                Some(s) => has_entry(self@.entries, id@) && s@ == entry_with(
                    self@.entries,
                    id@,
                ).body,
                None => !has_entry(self@.entries, id@),
            }),
    {
        match self.find_entry_idx(id) {
            None => None,
            Some(i) => {
                proof {
                    lemma_entry_with_is(self@.entries, i as int);
                }
                Some(self.entries[i].body_envelope.clone())
            },
        }
    }

    /// Record a directed relationship between two entries, with the given
    /// identifier and creation instant. Refused — and the store left
    /// untouched — when the identifier is taken or either endpoint is
    /// missing.
    pub fn add_relationship_at(
        &mut self,
        id: &str,
        parent_id: &str,
        child_id: &str,
        relationship_type: &str,
        now: &str,
    ) -> (r: Result<String, StoreError>)
        requires
            old(self).wf(),
        ensures
            final(self).wf(),
            final(self).key_view() == old(self).key_view(),
            (r is Ok) == (!has_rel_id(old(self)@.relationships, id@) && has_entry(
                old(self)@.entries,
                parent_id@,
            ) && has_entry(old(self)@.entries, child_id@)),
            r matches Ok(rid) ==> rid@ == id@ && final(self)@ == (DbV {
                relationships: old(self)@.relationships.push(
                    RelV {
                        id: id@,
                        parent_id: parent_id@,
                        child_id: child_id@,
                        relationship_type: relationship_type@,
                        created_at: now@,
                    },
                ),
                ..old(self)@
            }),
            r matches Err(e) ==> final(self)@ == old(self)@ && e == StoreError::Conflict,
    {
        if self.find_rel_idx(id).is_some() {
            return Err(StoreError::Conflict);
        }
        if self.find_entry_idx(parent_id).is_none() {
            return Err(StoreError::Conflict);
        }
        if self.find_entry_idx(child_id).is_none() {
            return Err(StoreError::Conflict);
        }
        let row = Relationship {
            id: id.to_owned(),
            parent_id: parent_id.to_owned(),
            child_id: child_id.to_owned(),
            relationship_type: relationship_type.to_owned(),
            created_at: now.to_owned(),
        };
        let ghost old_db = self@;
        let ghost rv = row@;
        self.relationships.push(row);
        proof {
            assert(self.relationships.deep_view() =~= old_db.relationships.push(rv));
            assert(self@ =~= (DbV { relationships: old_db.relationships.push(rv), ..old_db }));
            let d2 = self@;
            assert forall|i: int, j: int| 0 <= i < j < d2.relationships.len() implies (
            #[trigger] d2.relationships[i].id) != (#[trigger] d2.relationships[j].id) by {
                if j == d2.relationships.len() - 1 {
                    assert(d2.relationships[i] == old_db.relationships[i]);
                    assert(has_rel_id(old_db.relationships, old_db.relationships[i].id));
                }
            }
            assert forall|i: int|
                0 <= i < d2.relationships.len() implies has_entry(
                d2.entries,
                (#[trigger] d2.relationships[i]).parent_id,
            ) && has_entry(d2.entries, d2.relationships[i].child_id) by {
                if i < d2.relationships.len() - 1 {
                    assert(d2.relationships[i] == old_db.relationships[i]);
                }
            }
        }
        Ok(id.to_owned())
    }

    /// Record a directed relationship, stamped with the current instant.
    pub fn add_relationship(
        &mut self,
        id: &str,
        parent_id: &str,
        child_id: &str,
        relationship_type: &str,
    ) -> (r: Result<String, StoreError>)
        requires
            old(self).wf(),
        ensures
            final(self).wf(),
            final(self).key_view() == old(self).key_view(),
            (r is Ok) == (!has_rel_id(old(self)@.relationships, id@) && has_entry(
                old(self)@.entries,
                parent_id@,
            ) && has_entry(old(self)@.entries, child_id@)),
            r matches Ok(rid) ==> ({
                &&& rid@ == id@
                &&& final(self)@.relationships.len() == old(self)@.relationships.len() + 1
                &&& final(self)@.relationships.take(old(self)@.relationships.len() as int) == old(
                    self,
                )@.relationships
                &&& final(self)@.relationships.last().id == id@
                &&& final(self)@.relationships.last().parent_id == parent_id@
                &&& final(self)@.relationships.last().child_id == child_id@
                &&& final(self)@.relationships.last().relationship_type == relationship_type@
                &&& final(self)@.entries == old(self)@.entries
                &&& final(self)@.tags == old(self)@.tags
                &&& final(self)@.taggings == old(self)@.taggings
            }),
            r matches Err(e) ==> final(self)@ == old(self)@ && e == StoreError::Conflict,
    {
        let now = now_rfc3339();
        let r = self.add_relationship_at(id, parent_id, child_id, relationship_type, now.as_str());
        proof {
            if r is Ok {
                assert(final(self)@.relationships.take(old(self)@.relationships.len() as int)
                    =~= old(self)@.relationships);
            }
        }
        r
    }

    /// Remove the relationship with this identifier; removing an unknown
    /// identifier is not an error.
    pub fn delete_relationship(&mut self, id: &str) -> (r: Result<(), StoreError>)
        requires
            old(self).wf(),
        ensures
            final(self).wf(),
            final(self).key_view() == old(self).key_view(),
            r is Ok,
            final(self)@ == (DbV {
                relationships: old(self)@.relationships.filter(|x: RelV| x.id != id@),
                ..old(self)@
            }),
    {
        let ghost keep = |x: RelV| x.id != id@;
        let n = self.relationships.len();
        let mut kept: Vec<Relationship> = Vec::new();
        let mut i: usize = 0;
        proof {
            assert(kept.deep_view() =~= old(self)@.relationships.take(0).filter(keep));
        }
        while i < n
            invariant
                n == self@.relationships.len(),
                i <= n,
                self == old(self),
                keep == (|x: RelV| x.id != id@),
                kept.deep_view() == self@.relationships.take(i as int).filter(keep),
            decreases n - i,
        {
            let x = &self.relationships[i];
            let ghost pre = kept.deep_view();
            let ghost elem = self@.relationships[i as int];
            proof {
                assert(elem == self.relationships@[i as int]@);
            }
            if !str_eq(x.id.as_str(), id) {
                kept.push(
                    Relationship {
                        id: x.id.clone(),
                        parent_id: x.parent_id.clone(),
                        child_id: x.child_id.clone(),
                        relationship_type: x.relationship_type.clone(),
                        created_at: x.created_at.clone(),
                    },
                );
                proof {
                    assert(keep(elem));
                    assert(kept.deep_view() =~= pre.push(elem));
                }
            } else {
                proof {
                    assert(!keep(elem));
                }
            }
            proof {
                lemma_filter_push(
                    self@.relationships.take(i as int),
                    self@.relationships[i as int],
                    keep,
                );
                assert(self@.relationships.take(i as int).push(self@.relationships[i as int])
                    =~= self@.relationships.take(i as int + 1));
                assert(kept.deep_view() =~= self@.relationships.take(i as int + 1).filter(keep));
            }
            i = i + 1;
        }
        proof {
            assert(self@.relationships.take(n as int) =~= self@.relationships);
        }
        self.relationships = kept;
        proof {
            assert(self@ =~= (DbV {
                relationships: old(self)@.relationships.filter(keep),
                ..old(self)@
            }));
            lemma_filter_rels_wf(old(self)@, keep);
        }
        Ok(())
    }

    fn find_tag_by_id(&self, id: &str) -> (r: Option<usize>)
        ensures
            (match r {
                Some(i) => i < self@.tags.len() && self@.tags[i as int].id == id@,
                None => !has_tag_id(self@.tags, id@),
            }),
            (r is Some) == has_tag_id(self@.tags, id@),
    {
        let n = self.tags.len();
        let mut i: usize = 0;
        while i < n
            invariant
                n == self@.tags.len(),
                i <= n,
                forall|k: int| 0 <= k < i ==> (#[trigger] self@.tags[k].id) != id@,
            decreases n - i,
        {
            if str_eq(self.tags[i].id.as_str(), id) {
                proof {
                    assert(self@.tags[i as int] == self.tags@[i as int]@);
                }
                return Some(i);
            }
            proof {
                assert(self@.tags[i as int] == self.tags@[i as int]@);
            }
            i = i + 1;
        }
        proof {
            if has_tag_id(self@.tags, id@) {
                let k = choose|k: int| 0 <= k < self@.tags.len() && self@.tags[k].id == id@;
                assert(false);
            }
        }
        None
    }

    fn has_tagging_exec(&self, eid: &str, tid: &str) -> (r: bool)
        ensures
            r == has_tagging(self@.taggings, eid@, tid@),
    {
        let n = self.taggings.len();
        let mut i: usize = 0;
        while i < n
            invariant
                n == self@.taggings.len(),
                i <= n,
                forall|k: int|
                    0 <= k < i ==> !((#[trigger] self@.taggings[k]).diary_id == eid@
                        && self@.taggings[k].tag_id == tid@),
            decreases n - i,
        {
            let t = &self.taggings[i];
            proof {
                assert(self@.taggings[i as int] == self.taggings@[i as int]@);
            }
            if str_eq(t.diary_id.as_str(), eid) && str_eq(t.tag_id.as_str(), tid) {
                return true;
            }
            i = i + 1;
        }
        proof {
            if has_tagging(self@.taggings, eid@, tid@) {
                let k = choose|k: int|
                    0 <= k < self@.taggings.len() && self@.taggings[k].diary_id == eid@
                        && self@.taggings[k].tag_id == tid@;
                assert(false);
            }
        }
        false
    }

    /// The tag names joined to one entry, in the table order of its taggings.
    fn tags_for(&self, diary_id: &str) -> (r: Vec<String>)
        requires
            self.wf(),
        ensures
            r.deep_view() == tag_names_of(self@, diary_id@),
    {
        let ghost keep = |t: TaggingV| t.diary_id == diary_id@;
        let ghost f = |t: TaggingV| tag_by_id(self@.tags, t.tag_id).name;
        let n = self.taggings.len();
        let mut out: Vec<String> = Vec::new();
        let mut i: usize = 0;
        proof {
            assert(out.deep_view() =~= self@.taggings.take(0).filter(keep).map_values(f));
        }
        while i < n
            invariant
                self.wf(),
                n == self@.taggings.len(),
                i <= n,
                keep == (|t: TaggingV| t.diary_id == diary_id@),
                f == (|t: TaggingV| tag_by_id(self@.tags, t.tag_id).name),
                out.deep_view() == self@.taggings.take(i as int).filter(keep).map_values(f),
            decreases n - i,
        {
            let t = &self.taggings[i];
            let ghost elem = self@.taggings[i as int];
            let ghost pre = out.deep_view();
            proof {
                assert(elem == self.taggings@[i as int]@);
            }
            if str_eq(t.diary_id.as_str(), diary_id) {
                proof {
                    assert(has_tag_id(self@.tags, elem.tag_id));
                }
                match self.find_tag_by_id(t.tag_id.as_str()) {
                    Some(j) => {
                        out.push(self.tags[j].name.clone());
                        proof {
                            assert(self@.tags[j as int] == self.tags@[j as int]@);
                            lemma_tag_by_id_is(self@.tags, j as int);
                            assert(tag_by_id(self@.tags, elem.tag_id) == self@.tags[j as int]);
                            assert(out.deep_view() =~= pre.push(f(elem)));
                            assert(keep(elem));
                        }
                    },
                    None => {
                        proof {
                            assert(false);
                        }
                    },
                }
            } else {
                proof {
                    assert(!keep(elem));
                }
            }
            proof {
                lemma_filter_push(self@.taggings.take(i as int), elem, keep);
                assert(self@.taggings.take(i as int).push(elem) =~= self@.taggings.take(
                    i as int + 1,
                ));
                if keep(elem) {
                    assert(self@.taggings.take(i as int + 1).filter(keep).map_values(f)
                        =~= self@.taggings.take(i as int).filter(keep).map_values(f).push(f(elem)));
                }
                assert(out.deep_view() =~= self@.taggings.take(i as int + 1).filter(keep)
                    .map_values(f));
            }
            i = i + 1;
        }
        proof {
            assert(self@.taggings.take(n as int) =~= self@.taggings);
        }
        out
    }

    /// Fetch one entry: decrypt its body and join its tag names. Not-found
    /// for an unknown identifier; a body that fails to open is an error, not
    /// a substituted row.
    pub fn get_diary(&self, id: &str) -> (r: Result<DiaryEntry, StoreError>)
        requires
            self.wf(),
        ensures
            !has_entry(self@.entries, id@) ==> (r matches Err(e) && e == StoreError::NotFound),
            (has_entry(self@.entries, id@) && decrypt_spec(
                self.key_view(),
                entry_with(self@.entries, id@).body,
            ) is None) ==> (r matches Err(e) && e matches StoreError::Crypto(_)),
            (has_entry(self@.entries, id@) && decrypt_spec(
                self.key_view(),
                entry_with(self@.entries, id@).body,
            ) is Some) ==> (r matches Ok(out) && entry_output(
                self@,
                self.key_view(),
                entry_with(self@.entries, id@),
                out,
            )),
    {
        match self.find_entry_idx(id) {
            None => Err(StoreError::NotFound),
            Some(i) => {
                proof {
                    assert(self@.entries[i as int] == self.entries@[i as int]@);
                    lemma_entry_with_is(self@.entries, i as int);
                }
                let row = &self.entries[i];
                match self.crypto.decrypt(row.body_envelope.as_str()) {
                    Err(ce) => Err(StoreError::Crypto(ce)),
                    Ok(content) => {
                        let tags = self.tags_for(id);
                        Ok(
                            DiaryEntry {
                                id: row.id.clone(),
                                title: row.title.clone(),
                                content,
                                created_at: timestamp_or_now(&row.created_at),
                                updated_at: timestamp_or_now(&row.updated_at),
                                tags,
                            },
                        )
                    },
                }
            },
        }
    }

    /// All entries, newest first by creation instant, bodies decrypted and
    /// tag names joined. A body that fails to open fails the whole call.
    pub fn list_diaries(&self) -> (r: Result<Vec<DiaryEntry>, StoreError>)
        requires
            self.wf(),
        ensures
            (r is Ok) == (forall|i: int|
                0 <= i < self@.entries.len() ==> decrypt_spec(
                    self.key_view(),
                    (#[trigger] self@.entries[i]).body,
                ) is Some),
            r matches Ok(v) ==> v@.len() == self@.entries.len(),
            r matches Ok(v) ==> (forall|i: int|
                0 <= i < v@.len() ==> entry_output(
                    self@,
                    self.key_view(),
                    self@.entries[i],
                    #[trigger] v@[i],
                )),
            r matches Ok(v) ==> ((forall|i: int|
                0 <= i < self@.entries.len() ==> is_rfc3339(
                    (#[trigger] self@.entries[i]).created_at,
                )) ==> (forall|i: int, j: int|
                0 <= i < j < v@.len() ==> lex_le(
                    (#[trigger] v@[j]).created_at@,
                    (#[trigger] v@[i]).created_at@,
                ))),
            r matches Err(e) ==> e matches StoreError::Crypto(_),
    {
        let n = self.entries.len();
        let mut out: Vec<DiaryEntry> = Vec::new();
        let mut i: usize = 0;
        while i < n
            invariant
                self.wf(),
                n == self@.entries.len(),
                i <= n,
                out@.len() == i,
                forall|k: int|
                    0 <= k < i ==> entry_output(
                        self@,
                        self.key_view(),
                        self@.entries[k],
                        #[trigger] out@[k],
                    ),
            decreases n - i,
        {
            let row = &self.entries[i];
            proof {
                assert(self@.entries[i as int] == self.entries@[i as int]@);
            }
            match self.crypto.decrypt(row.body_envelope.as_str()) {
                Err(ce) => {
                    return Err(StoreError::Crypto(ce));
                },
                Ok(content) => {
                    let tags = self.tags_for(row.id.as_str());
                    out.push(
                        DiaryEntry {
                            id: row.id.clone(),
                            title: row.title.clone(),
                            content,
                            created_at: timestamp_or_now(&row.created_at),
                            updated_at: timestamp_or_now(&row.updated_at),
                            tags,
                        },
                    );
                },
            }
            i = i + 1;
        }
        proof {
            if forall|k: int|
                0 <= k < self@.entries.len() ==> is_rfc3339(
                    (#[trigger] self@.entries[k]).created_at,
                ) {
                assert forall|a: int, b: int| 0 <= a < b < out@.len() implies lex_le(
                    (#[trigger] out@[b]).created_at@,
                    (#[trigger] out@[a]).created_at@,
                ) by {
                    assert(entry_output(self@, self.key_view(), self@.entries[a], out@[a]));
                    assert(entry_output(self@, self.key_view(), self@.entries[b], out@[b]));
                    assert(is_rfc3339(self@.entries[a].created_at));
                    assert(is_rfc3339(self@.entries[b].created_at));
                    assert(lex_le(self@.entries[b].created_at, self@.entries[a].created_at));
                }
            }
            assert forall|k: int|
                0 <= k < self@.entries.len() implies decrypt_spec(
                self.key_view(),
                (#[trigger] self@.entries[k]).body,
            ) is Some by {
                assert(entry_output(self@, self.key_view(), self@.entries[k], out@[k]));
            }
        }
        Ok(out)
    }

    /// The entries carrying a tag of this name, newest first.
    pub fn search_diaries_by_tag(&self, tag_name: &str) -> (r: Result<Vec<DiaryEntry>, StoreError>)
        requires
            self.wf(),
        ensures
            (r is Ok) == (forall|i: int|
                0 <= i < tagged_entries(self@, tag_name@).len() ==> decrypt_spec(
                    self.key_view(),
                    (#[trigger] tagged_entries(self@, tag_name@)[i]).body,
                ) is Some),
            r matches Ok(v) ==> v@.len() == tagged_entries(self@, tag_name@).len(),
            r matches Ok(v) ==> (forall|i: int|
                0 <= i < v@.len() ==> entry_output(
                    self@,
                    self.key_view(),
                    tagged_entries(self@, tag_name@)[i],
                    #[trigger] v@[i],
                )),
            r matches Ok(v) ==> ((forall|i: int|
                0 <= i < self@.entries.len() ==> is_rfc3339(
                    (#[trigger] self@.entries[i]).created_at,
                )) ==> (forall|i: int, j: int|
                0 <= i < j < v@.len() ==> lex_le(
                    (#[trigger] v@[j]).created_at@,
                    (#[trigger] v@[i]).created_at@,
                ))),
            r matches Err(e) ==> e matches StoreError::Crypto(_),
    {
        let ghost keep = |e: EntryV| entry_tagged(self@, e.id, tag_name@);
        let n = self.entries.len();
        let mut out: Vec<DiaryEntry> = Vec::new();
        let mut i: usize = 0;
        proof {
            assert(self@.entries.take(0).filter(keep) =~= Seq::<EntryV>::empty());
        }
        while i < n
            invariant
                self.wf(),
                n == self@.entries.len(),
                i <= n,
                keep == (|e: EntryV| entry_tagged(self@, e.id, tag_name@)),
                out@.len() == self@.entries.take(i as int).filter(keep).len(),
                forall|k: int|
                    0 <= k < out@.len() ==> entry_output(
                        self@,
                        self.key_view(),
                        self@.entries.take(i as int).filter(keep)[k],
                        #[trigger] out@[k],
                    ),
            decreases n - i,
        {
            let row = &self.entries[i];
            let ghost elem = self@.entries[i as int];
            let ghost prefix = self@.entries.take(i as int).filter(keep);
            proof {
                assert(elem == self.entries@[i as int]@);
            }
            let tagged: bool = match self.find_tag_by_name(tag_name) {
                None => false,
                Some(j) => {
                    proof {
                        assert(self@.tags[j as int] == self.tags@[j as int]@);
                        lemma_tag_by_name_is(self@.tags, j as int);
                    }
                    self.has_tagging_exec(row.id.as_str(), self.tags[j].id.as_str())
                },
            };
            proof {
                assert(tagged == keep(elem));
            }
            if tagged {
                match self.crypto.decrypt(row.body_envelope.as_str()) {
                    Err(ce) => {
                        proof {
                            broadcast use vstd::seq_lib::group_filter_ensures;

                            assert(self@.entries.filter(keep) == tagged_entries(
                                self@,
                                tag_name@,
                            ));
                            assert(self@.entries.filter(keep).contains(elem));
                            let k = choose|k: int|
                                0 <= k < self@.entries.filter(keep).len()
                                    && self@.entries.filter(keep)[k] == elem;
                            assert(decrypt_spec(
                                self.key_view(),
                                tagged_entries(self@, tag_name@)[k].body,
                            ) is None);
                        }
                        return Err(StoreError::Crypto(ce));
                    },
                    Ok(content) => {
                        let tags = self.tags_for(row.id.as_str());
                        out.push(
                            DiaryEntry {
                                id: row.id.clone(),
                                title: row.title.clone(),
                                content,
                                created_at: timestamp_or_now(&row.created_at),
                                updated_at: timestamp_or_now(&row.updated_at),
                                tags,
                            },
                        );
                    },
                }
            }
            proof {
                lemma_filter_push(self@.entries.take(i as int), elem, keep);
                assert(self@.entries.take(i as int).push(elem) =~= self@.entries.take(
                    i as int + 1,
                ));
                if keep(elem) {
                    assert(self@.entries.take(i as int + 1).filter(keep) =~= prefix.push(elem));
                }
            }
            i = i + 1;
        }
        proof {
            assert(self@.entries.take(n as int) =~= self@.entries);
            let filtered = self@.entries.filter(keep);
            assert(filtered == tagged_entries(self@, tag_name@));
            let qs = |a: EntryV, b: EntryV| lex_le(b.created_at, a.created_at);
            assert forall|a: int, b: int| 0 <= a < b < self@.entries.len() implies #[trigger] qs(
                self@.entries[a],
                self@.entries[b],
            ) by {}
            lemma_filter_pairwise(self@.entries, keep, qs);
            if forall|k: int|
                0 <= k < self@.entries.len() ==> is_rfc3339(
                    (#[trigger] self@.entries[k]).created_at,
                ) {
                assert forall|a: int, b: int| 0 <= a < b < out@.len() implies lex_le(
                    (#[trigger] out@[b]).created_at@,
                    (#[trigger] out@[a]).created_at@,
                ) by {
                    assert(entry_output(self@, self.key_view(), filtered[a], out@[a]));
                    assert(entry_output(self@, self.key_view(), filtered[b], out@[b]));
                    let ka = lemma_filter_elem_index(self@.entries, keep, a);
                    let kb = lemma_filter_elem_index(self@.entries, keep, b);
                    assert(is_rfc3339(filtered[a].created_at));
                    assert(is_rfc3339(filtered[b].created_at));
                    assert(qs(filtered[a], filtered[b]));
                }
            }
            assert forall|k: int|
                0 <= k < filtered.len() implies decrypt_spec(
                self.key_view(),
                (#[trigger] filtered[k]).body,
            ) is Some by {
                assert(entry_output(self@, self.key_view(), filtered[k], out@[k]));
            }
        }
        Ok(out)
    }

    /// Delete one entry with the manual cascade: its relationships first,
    /// then its taggings, then the row; not-found leaves the store untouched.
    pub fn delete_diary(&mut self, id: &str) -> (r: Result<(), StoreError>)
        requires
            old(self).wf(),
        ensures
            final(self).wf(),
            final(self).key_view() == old(self).key_view(),
            (r is Ok) == has_entry(old(self)@.entries, id@),
            r is Ok ==> final(self)@ == delete_tx(old(self)@, id@),
            r matches Err(e) ==> final(self)@ == old(self)@ && e == StoreError::NotFound,
    {
        if self.find_entry_idx(id).is_none() {
            return Err(StoreError::NotFound);
        }
        let ghost d0 = self@;
        let ghost keep_r = |x: RelV| x.parent_id != id@ && x.child_id != id@;
        let ghost keep_t = |x: TaggingV| x.diary_id != id@;
        let ghost keep_e = |x: EntryV| x.id != id@;

        // step 1: relationships touching the entry
        let n1 = self.relationships.len();
        let mut kept_r: Vec<Relationship> = Vec::new();
        let mut i: usize = 0;
        proof {
            assert(kept_r.deep_view() =~= d0.relationships.take(0).filter(keep_r));
        }
        while i < n1
            invariant
                n1 == self@.relationships.len(),
                i <= n1,
                self == old(self),
                d0 == self@,
                keep_r == (|x: RelV| x.parent_id != id@ && x.child_id != id@),
                kept_r.deep_view() == d0.relationships.take(i as int).filter(keep_r),
            decreases n1 - i,
        {
            let x = &self.relationships[i];
            let ghost pre = kept_r.deep_view();
            let ghost elem = d0.relationships[i as int];
            proof {
                assert(elem == self.relationships@[i as int]@);
            }
            if !str_eq(x.parent_id.as_str(), id) && !str_eq(x.child_id.as_str(), id) {
                kept_r.push(
                    Relationship {
                        id: x.id.clone(),
                        parent_id: x.parent_id.clone(),
                        child_id: x.child_id.clone(),
                        relationship_type: x.relationship_type.clone(),
                        created_at: x.created_at.clone(),
                    },
                );
                proof {
                    assert(keep_r(elem));
                    assert(kept_r.deep_view() =~= pre.push(elem));
                }
            } else {
                proof {
                    assert(!keep_r(elem));
                }
            }
            proof {
                lemma_filter_push(d0.relationships.take(i as int), elem, keep_r);
                assert(d0.relationships.take(i as int).push(elem) =~= d0.relationships.take(
                    i as int + 1,
                ));
                assert(kept_r.deep_view() =~= d0.relationships.take(i as int + 1).filter(keep_r));
            }
            i = i + 1;
        }

        // step 2: the entry's taggings
        let n2 = self.taggings.len();
        let mut kept_t: Vec<Tagging> = Vec::new();
        let mut j: usize = 0;
        proof {
            assert(d0.relationships.take(n1 as int) =~= d0.relationships);
            assert(kept_t.deep_view() =~= d0.taggings.take(0).filter(keep_t));
        }
        while j < n2
            invariant
                n2 == self@.taggings.len(),
                j <= n2,
                self == old(self),
                d0 == self@,
                keep_t == (|x: TaggingV| x.diary_id != id@),
                kept_t.deep_view() == d0.taggings.take(j as int).filter(keep_t),
            decreases n2 - j,
        {
            let x = &self.taggings[j];
            let ghost pre = kept_t.deep_view();
            let ghost elem = d0.taggings[j as int];
            proof {
                assert(elem == self.taggings@[j as int]@);
            }
            if !str_eq(x.diary_id.as_str(), id) {
                kept_t.push(Tagging { diary_id: x.diary_id.clone(), tag_id: x.tag_id.clone() });
                proof {
                    assert(keep_t(elem));
                    assert(kept_t.deep_view() =~= pre.push(elem));
                }
            } else {
                proof {
                    assert(!keep_t(elem));
                }
            }
            proof {
                lemma_filter_push(d0.taggings.take(j as int), elem, keep_t);
                assert(d0.taggings.take(j as int).push(elem) =~= d0.taggings.take(j as int + 1));
                assert(kept_t.deep_view() =~= d0.taggings.take(j as int + 1).filter(keep_t));
            }
            j = j + 1;
        }

        // step 3: the entry row
        let n3 = self.entries.len();
        let mut kept_e: Vec<EntryRow> = Vec::new();
        let mut k: usize = 0;
        proof {
            assert(d0.taggings.take(n2 as int) =~= d0.taggings);
            assert(kept_e.deep_view() =~= d0.entries.take(0).filter(keep_e));
        }
        while k < n3
            invariant
                n3 == self@.entries.len(),
                k <= n3,
                self == old(self),
                d0 == self@,
                keep_e == (|x: EntryV| x.id != id@),
                kept_e.deep_view() == d0.entries.take(k as int).filter(keep_e),
            decreases n3 - k,
        {
            let x = &self.entries[k];
            let ghost pre = kept_e.deep_view();
            let ghost elem = d0.entries[k as int];
            proof {
                assert(elem == self.entries@[k as int]@);
            }
            if !str_eq(x.id.as_str(), id) {
                kept_e.push(
                    EntryRow {
                        id: x.id.clone(),
                        title: x.title.clone(),
                        body_envelope: x.body_envelope.clone(),
                        created_at: x.created_at.clone(),
                        updated_at: x.updated_at.clone(),
                    },
                );
                proof {
                    assert(keep_e(elem));
                    assert(kept_e.deep_view() =~= pre.push(elem));
                }
            } else {
                proof {
                    assert(!keep_e(elem));
                }
            }
            proof {
                lemma_filter_push(d0.entries.take(k as int), elem, keep_e);
                assert(d0.entries.take(k as int).push(elem) =~= d0.entries.take(k as int + 1));
                assert(kept_e.deep_view() =~= d0.entries.take(k as int + 1).filter(keep_e));
            }
            k = k + 1;
        }
        proof {
            assert(d0.entries.take(n3 as int) =~= d0.entries);
        }

        self.relationships = kept_r;
        self.taggings = kept_t;
        self.entries = kept_e;
        proof {
            assert(self@ =~= delete_tx(d0, id@));
            lemma_delete_tx_wf(d0, id@);
        }
        Ok(())
    }

    /// The graph projection: entry and tag nodes (entry block first), then
    /// tagging edges (entry to tag) and relationship edges (child to parent).
    pub fn get_graph_data(&self) -> (r: Result<GraphData, StoreError>)
        requires
            self.wf(),
        ensures
            r matches Ok(g) && g.nodes.deep_view() == graph_nodes(self@) && g.edges.deep_view()
                == graph_edges(self@),
    {
        let ghost fe = |e: EntryV| NodeV {
            id: e.id,
            label: e.title,
            node_type: "diary"@,
            properties: seq![
                PropV { key: "title"@, value: e.title },
                PropV { key: "created_at"@, value: e.created_at },
            ],
        };
        let ghost ft = |t: TagV| NodeV {
            id: t.id,
            label: t.name,
            node_type: "tag"@,
            properties: seq![PropV { key: "name"@, value: t.name }],
        };
        let mut nodes: Vec<GraphNode> = Vec::new();
        let n1 = self.entries.len();
        let mut i: usize = 0;
        while i < n1
            invariant
                self.wf(),
                n1 == self@.entries.len(),
                i <= n1,
                fe == (|e: EntryV| NodeV {
                    id: e.id,
                    label: e.title,
                    node_type: "diary"@,
                    properties: seq![
                        PropV { key: "title"@, value: e.title },
                        PropV { key: "created_at"@, value: e.created_at },
                    ],
                }),
                nodes.deep_view() == self@.entries.take(i as int).map_values(fe),
            decreases n1 - i,
        {
            let row = &self.entries[i];
            let ghost pre = nodes.deep_view();
            let ghost elem = self@.entries[i as int];
            proof {
                assert(elem == self.entries@[i as int]@);
            }
            let mut props: Vec<Prop> = Vec::new();
            props.push(Prop { key: String::from_str("title"), value: row.title.clone() });
            props.push(Prop { key: String::from_str("created_at"), value: row.created_at.clone() });
            nodes.push(
                GraphNode {
                    id: row.id.clone(),
                    label: row.title.clone(),
                    node_type: String::from_str("diary"),
                    properties: props,
                },
            );
            proof {
                assert(nodes.deep_view().last().properties =~= fe(elem).properties);
                assert(nodes.deep_view().last() == fe(elem));
                assert(nodes.deep_view() =~= pre.push(fe(elem)));
                assert(self@.entries.take(i as int).map_values(fe).push(fe(elem))
                    =~= self@.entries.take(i as int + 1).map_values(fe));
            }
            i = i + 1;
        }
        let n2 = self.tags.len();
        let mut j: usize = 0;
        proof {
            assert(self@.entries.take(n1 as int) =~= self@.entries);
            assert(nodes.deep_view() =~= self@.entries.map_values(fe) + self@.tags.take(
                0,
            ).map_values(ft));
        }
        while j < n2
            invariant
                self.wf(),
                n2 == self@.tags.len(),
                j <= n2,
                ft == (|t: TagV| NodeV {
                    id: t.id,
                    label: t.name,
                    node_type: "tag"@,
                    properties: seq![PropV { key: "name"@, value: t.name }],
                }),
                nodes.deep_view() == self@.entries.map_values(fe) + self@.tags.take(
                    j as int,
                ).map_values(ft),
            decreases n2 - j,
        {
            let row = &self.tags[j];
            let ghost pre = nodes.deep_view();
            let ghost elem = self@.tags[j as int];
            proof {
                assert(elem == self.tags@[j as int]@);
            }
            let mut props: Vec<Prop> = Vec::new();
            props.push(Prop { key: String::from_str("name"), value: row.name.clone() });
            nodes.push(
                GraphNode {
                    id: row.id.clone(),
                    label: row.name.clone(),
                    node_type: String::from_str("tag"),
                    properties: props,
                },
            );
            proof {
                assert(nodes.deep_view().last().properties =~= ft(elem).properties);
                assert(nodes.deep_view().last() == ft(elem));
                assert(nodes.deep_view() =~= pre.push(ft(elem)));
                assert(self@.tags.take(j as int).map_values(ft).push(ft(elem)) =~= self@.tags.take(
                    j as int + 1,
                ).map_values(ft));
            }
            j = j + 1;
        }
        proof {
            assert(self@.tags.take(n2 as int) =~= self@.tags);
            assert(nodes.deep_view() =~= graph_nodes(self@));
        }

        let ghost ge = |t: TaggingV| EdgeV {
            id: tag_edge_id(t.diary_id, t.tag_id),
            source: t.diary_id,
            target: t.tag_id,
            label: tag_edge_label(tag_by_id(self@.tags, t.tag_id).name),
        };
        let ghost gr = |x: RelV| EdgeV {
            id: x.id,
            source: x.child_id,
            target: x.parent_id,
            label: x.relationship_type,
        };
        let mut edges: Vec<GraphEdge> = Vec::new();
        let n3 = self.taggings.len();
        let mut k: usize = 0;
        while k < n3
            invariant
                self.wf(),
                n3 == self@.taggings.len(),
                k <= n3,
                ge == (|t: TaggingV| EdgeV {
                    id: tag_edge_id(t.diary_id, t.tag_id),
                    source: t.diary_id,
                    target: t.tag_id,
                    label: tag_edge_label(tag_by_id(self@.tags, t.tag_id).name),
                }),
                edges.deep_view() == self@.taggings.take(k as int).map_values(ge),
            decreases n3 - k,
        {
            let t = &self.taggings[k];
            let ghost pre = edges.deep_view();
            let ghost elem = self@.taggings[k as int];
            proof {
                assert(elem == self.taggings@[k as int]@);
                assert(has_tag_id(self@.tags, elem.tag_id));
            }
            let mut eid = String::from_str("tag-");
            eid.append(t.diary_id.as_str());
            eid.append("-");
            eid.append(t.tag_id.as_str());
            let mut label = String::from_str("tagged_as_");
            match self.find_tag_by_id(t.tag_id.as_str()) {
                Some(m) => {
                    proof {
                        assert(self@.tags[m as int] == self.tags@[m as int]@);
                        lemma_tag_by_id_is(self@.tags, m as int);
                    }
                    label.append(self.tags[m].name.as_str());
                },
                None => {
                    proof {
                        assert(false);
                    }
                },
            }
            edges.push(
                GraphEdge {
                    id: eid,
                    source: t.diary_id.clone(),
                    target: t.tag_id.clone(),
                    label,
                },
            );
            proof {
                assert(edges.deep_view().last().id =~= ge(elem).id);
                assert(edges.deep_view().last().label =~= ge(elem).label);
                assert(edges.deep_view().last() == ge(elem));
                assert(edges.deep_view() =~= pre.push(ge(elem)));
                assert(self@.taggings.take(k as int).map_values(ge).push(ge(elem))
                    =~= self@.taggings.take(k as int + 1).map_values(ge));
            }
            k = k + 1;
        }
        let n4 = self.relationships.len();
        let mut m: usize = 0;
        proof {
            assert(self@.taggings.take(n3 as int) =~= self@.taggings);
            assert(edges.deep_view() =~= self@.taggings.map_values(ge) + self@.relationships.take(
                0,
            ).map_values(gr));
        }
        while m < n4
            invariant
                self.wf(),
                n4 == self@.relationships.len(),
                m <= n4,
                gr == (|x: RelV| EdgeV {
                    id: x.id,
                    source: x.child_id,
                    target: x.parent_id,
                    label: x.relationship_type,
                }),
                ge == (|t: TaggingV| EdgeV {
                    id: tag_edge_id(t.diary_id, t.tag_id),
                    source: t.diary_id,
                    target: t.tag_id,
                    label: tag_edge_label(tag_by_id(self@.tags, t.tag_id).name),
                }),
                edges.deep_view() == self@.taggings.map_values(ge) + self@.relationships.take(
                    m as int,
                ).map_values(gr),
            decreases n4 - m,
        {
            let x = &self.relationships[m];
            let ghost pre = edges.deep_view();
            let ghost elem = self@.relationships[m as int];
            proof {
                assert(elem == self.relationships@[m as int]@);
            }
            edges.push(
                GraphEdge {
                    id: x.id.clone(),
                    source: x.child_id.clone(),
                    target: x.parent_id.clone(),
                    label: x.relationship_type.clone(),
                },
            );
            proof {
                assert(edges.deep_view().last() == gr(elem));
                assert(edges.deep_view() =~= pre.push(gr(elem)));
                assert(self@.relationships.take(m as int).map_values(gr).push(gr(elem))
                    =~= self@.relationships.take(m as int + 1).map_values(gr));
            }
            m = m + 1;
        }
        proof {
            assert(self@.relationships.take(n4 as int) =~= self@.relationships);
            assert(edges.deep_view() =~= graph_edges(self@));
        }
        Ok(GraphData { nodes, edges })
    }

    /// Upsert an entry with every outside-decided value passed in: the sealed
    /// `envelope` for the body, the instant `now`, the minted entry identifier
    /// `fresh_id` (used only when `id` is `None`) and one minted tag
    /// identifier per tag name. The transition is exactly
    /// [`save_tx`]; it is refused — and the store left untouched — exactly
    /// when a minted identifier collides.
    #[verifier::loop_isolation(false)]
    pub fn save_diary_with(
        &mut self,
        id: Option<&str>,
        title: &str,
        envelope: &str,
        now: &str,
        fresh_id: &str,
        mints: &Vec<String>,
        tags: &Vec<String>,
    ) -> (r: Result<String, StoreError>)
        requires
            old(self).wf(),
            mints@.len() == tags@.len(),
        ensures
            final(self).wf(),
            final(self).key_view() == old(self).key_view(),
            (r is Ok) == (save_tx(
                old(self)@,
                opt_id_view(id),
                fresh_id@,
                title@,
                envelope@,
                now@,
                tags.deep_view(),
                mints.deep_view(),
            ) is Some),
            r matches Ok(rid) ==> Some(final(self)@) == save_tx(
                old(self)@,
                opt_id_view(id),
                fresh_id@,
                title@,
                envelope@,
                now@,
                tags.deep_view(),
                mints.deep_view(),
            ) && rid@ == save_id(opt_id_view(id), fresh_id@),
            r matches Err(e) ==> final(self)@ == old(self)@ && e == StoreError::Conflict,
    {
        let ghost d0 = self@;
        let ghost names = tags.deep_view();
        let ghost mv = mints.deep_view();

        // the entry phase's data
        let mut eid_str: String = String::new();
        let mut entry_exists: bool = false;
        let mut is_update: bool = false;
        match id {
            Some(x) => {
                entry_exists = self.find_entry_idx(x).is_some();
                is_update = true;
                eid_str = x.to_owned();
            },
            None => {
                if self.find_entry_idx(fresh_id).is_some() {
                    return Err(StoreError::Conflict);
                }
                entry_exists = true;
                is_update = false;
                eid_str = fresh_id.to_owned();
            },
        }
        let ghost eidv = eid_str@;

        // scratch copies of the tag tables: the transaction commits only as a
        // whole
        let mut new_tags: Vec<Tag> = Vec::new();
        let tn = self.tags.len();
        let mut i: usize = 0;
        while i < tn
            invariant
                tn == self@.tags.len(),
                i <= tn,
                self == old(self),
                new_tags.deep_view() == self@.tags.take(i as int),
            decreases tn - i,
        {
            let t = &self.tags[i];
            let ghost pre = new_tags.deep_view();
            proof {
                assert(self@.tags[i as int] == self.tags@[i as int]@);
            }
            new_tags.push(Tag { id: t.id.clone(), name: t.name.clone() });
            proof {
                assert(new_tags.deep_view() =~= pre.push(self@.tags[i as int]));
                assert(new_tags.deep_view() =~= self@.tags.take(i as int + 1));
            }
            i = i + 1;
        }
        proof {
            assert(self@.tags.take(tn as int) =~= self@.tags);
        }

        let ghost keep = |t: TaggingV| t.diary_id != eidv;
        let gn = self.taggings.len();
        let mut new_tgs: Vec<Tagging> = Vec::new();
        let mut j: usize = 0;
        proof {
            assert(new_tgs.deep_view() =~= self@.taggings.take(0).filter(keep));
            assert(new_tgs.deep_view() =~= self@.taggings.take(0));
        }
        while j < gn
            invariant
                gn == self@.taggings.len(),
                j <= gn,
                self == old(self),
                keep == (|t: TaggingV| t.diary_id != eidv),
                is_update ==> new_tgs.deep_view() == self@.taggings.take(j as int).filter(keep),
                !is_update ==> new_tgs.deep_view() == self@.taggings.take(j as int),
            decreases gn - j,
        {
            let t = &self.taggings[j];
            let ghost pre = new_tgs.deep_view();
            let ghost elem = self@.taggings[j as int];
            proof {
                assert(elem == self.taggings@[j as int]@);
            }
            if !is_update || !str_eq(t.diary_id.as_str(), eid_str.as_str()) {
                new_tgs.push(Tagging { diary_id: t.diary_id.clone(), tag_id: t.tag_id.clone() });
                proof {
                    assert(new_tgs.deep_view() =~= pre.push(elem));
                }
            } else {
                proof {
                    assert(!keep(elem));
                }
            }
            proof {
                if is_update {
                    lemma_filter_push(self@.taggings.take(j as int), elem, keep);
                }
                assert(self@.taggings.take(j as int).push(elem) =~= self@.taggings.take(
                    j as int + 1,
                ));
                if is_update {
                    assert(new_tgs.deep_view() =~= self@.taggings.take(j as int + 1).filter(keep));
                } else {
                    assert(new_tgs.deep_view() =~= self@.taggings.take(j as int + 1));
                }
            }
            j = j + 1;
        }
        let ghost tags0 = d0.tags;
        let ghost tgs0 = if is_update {
            d0.taggings.filter(keep)
        } else {
            d0.taggings
        };
        proof {
            assert(self@.taggings.take(gn as int) =~= self@.taggings);
            assert(new_tags.deep_view() == tags0);
            assert(new_tgs.deep_view() == tgs0);
        }

        // tag reconciliation, mirroring `apply_tags`
        let n = tags.len();
        let mut k: usize = 0;
        proof {
            assert(names.skip(0) =~= names);
            assert(mv.skip(0) =~= mv);
        }
        while k < n
            invariant
                n == tags@.len(),
                mints@.len() == n,
                k <= n,
                names == tags.deep_view(),
                mv == mints.deep_view(),
                apply_tags(tags0, tgs0, entry_exists, eidv, names, mv) == apply_tags(
                    new_tags.deep_view(),
                    new_tgs.deep_view(),
                    entry_exists,
                    eidv,
                    names.skip(k as int),
                    mv.skip(k as int),
                ),
                forall|a: int, b: int|
                    0 <= a < b < new_tags.deep_view().len() ==> (
                    #[trigger] new_tags.deep_view()[a].id) != (
                    #[trigger] new_tags.deep_view()[b].id),
                forall|a: int, b: int|
                    0 <= a < b < new_tags.deep_view().len() ==> (
                    #[trigger] new_tags.deep_view()[a].name) != (
                    #[trigger] new_tags.deep_view()[b].name),
            decreases n - k,
        {
            let name = &tags[k];
            let ghost tcur = new_tags.deep_view();
            let ghost gcur = new_tgs.deep_view();
            proof {
                assert(names[k as int] == tags@[k as int]@);
                assert(names.skip(k as int)[0] == names[k as int]);
                assert(mv.skip(k as int)[0] == mv[k as int]);
                assert(mv[k as int] == mints@[k as int]@);
                assert(names.skip(k as int).drop_first() =~= names.skip(k as int + 1));
                assert(mv.skip(k as int).drop_first() =~= mv.skip(k as int + 1));
            }
            let mut tid_str: String = String::new();
            match vec_find_tag_by_name(&new_tags, name.as_str()) {
                Some(t_idx) => {
                    proof {
                        lemma_tag_by_name_is(tcur, t_idx as int);
                    }
                    tid_str = new_tags[t_idx].id.clone();
                    proof {
                        assert(tcur[t_idx as int] == new_tags@[t_idx as int]@);
                        assert(tid_str@ == tag_by_name(tcur, names[k as int]).id);
                    }
                },
                None => {
                    let mint = &mints[k];
                    if vec_find_tag_by_id(&new_tags, mint.as_str()).is_some() {
                        // a minted identifier collided: the transaction is
                        // refused and nothing was written
                        proof {
                            assert(apply_tags(
                                tcur,
                                gcur,
                                entry_exists,
                                eidv,
                                names.skip(k as int),
                                mv.skip(k as int),
                            ) is None);
                        }
                        return Err(StoreError::Conflict);
                    }
                    let ghost pre = new_tags.deep_view();
                    new_tags.push(Tag { id: mint.clone(), name: name.clone() });
                    tid_str = mint.clone();
                    proof {
                        assert(new_tags.deep_view() =~= pre.push(
                            TagV { id: mv[k as int], name: names[k as int] },
                        ));
                        let nt = new_tags.deep_view();
                        assert forall|a: int, b: int| 0 <= a < b < nt.len() implies (
                        #[trigger] nt[a].id) != (#[trigger] nt[b].id) by {
                            if b == nt.len() - 1 {
                                assert(nt[a] == pre[a]);
                                assert(has_tag_id(pre, pre[a].id));
                            }
                        }
                        assert forall|a: int, b: int| 0 <= a < b < nt.len() implies (
                        #[trigger] nt[a].name) != (#[trigger] nt[b].name) by {
                            if b == nt.len() - 1 {
                                assert(nt[a] == pre[a]);
                                assert(has_tag_name(pre, pre[a].name));
                            }
                        }
                    }
                },
            }
            // the conflict-tolerant tagging insert
            let ghost gpre = new_tgs.deep_view();
            if entry_exists && !vec_has_tagging(&new_tgs, eid_str.as_str(), tid_str.as_str()) {
                new_tgs.push(Tagging { diary_id: eid_str.clone(), tag_id: tid_str.clone() });
                proof {
                    assert(new_tgs.deep_view() =~= gpre.push(
                        TaggingV { diary_id: eidv, tag_id: tid_str@ },
                    ));
                    assert(new_tgs.deep_view() =~= add_tagging(gpre, entry_exists, eidv, tid_str@));
                }
            } else {
                proof {
                    assert(new_tgs.deep_view() =~= add_tagging(gpre, entry_exists, eidv, tid_str@));
                }
            }
            proof {
                assert(apply_tags(
                    tcur,
                    gcur,
                    entry_exists,
                    eidv,
                    names.skip(k as int),
                    mv.skip(k as int),
                ) == apply_tags(
                    new_tags.deep_view(),
                    new_tgs.deep_view(),
                    entry_exists,
                    eidv,
                    names.skip(k as int + 1),
                    mv.skip(k as int + 1),
                ));
            }
            k = k + 1;
        }
        proof {
            assert(names.skip(n as int).len() == 0);
            assert(apply_tags(tags0, tgs0, entry_exists, eidv, names, mv) == Some(
                (new_tags.deep_view(), new_tgs.deep_view()),
            ));
        }

        // the entry row itself
        if is_update {
            let en = self.entries.len();
            let mut es2: Vec<EntryRow> = Vec::new();
            let mut a: usize = 0;
            let ghost target = update_entries(d0.entries, eidv, title@, envelope@, now@);
            while a < en
                invariant
                    en == self@.entries.len(),
                    a <= en,
                    self == old(self),
                    d0 == self@,
                    target == update_entries(d0.entries, eidv, title@, envelope@, now@),
                    es2.deep_view().len() == a,
                    forall|b: int| 0 <= b < a ==> #[trigger] es2.deep_view()[b] == target[b],
                decreases en - a,
            {
                let row = &self.entries[a];
                let ghost pre = es2.deep_view();
                proof {
                    assert(d0.entries[a as int] == self.entries@[a as int]@);
                }
                if str_eq(row.id.as_str(), eid_str.as_str()) {
                    es2.push(
                        EntryRow {
                            id: row.id.clone(),
                            title: title.to_owned(),
                            body_envelope: envelope.to_owned(),
                            created_at: row.created_at.clone(),
                            updated_at: now.to_owned(),
                        },
                    );
                } else {
                    es2.push(
                        EntryRow {
                            id: row.id.clone(),
                            title: row.title.clone(),
                            body_envelope: row.body_envelope.clone(),
                            created_at: row.created_at.clone(),
                            updated_at: row.updated_at.clone(),
                        },
                    );
                }
                proof {
                    assert(es2.deep_view() =~= pre.push(target[a as int]));
                }
                a = a + 1;
            }
            self.entries = es2;
            proof {
                assert(self@.entries =~= target);
            }
        } else {
            let ghost e = EntryV {
                id: fresh_id@,
                title: title@,
                body: envelope@,
                created_at: now@,
                updated_at: now@,
            };
            let en = self.entries.len();
            let mut pos: usize = en;
            let mut a: usize = 0;
            let mut found: bool = false;
            while a < en && !found
                invariant
                    en == self@.entries.len(),
                    a <= en,
                    self == old(self),
                    d0 == self@,
                    !found ==> (forall|b: int|
                        0 <= b < a ==> !lex_le(
                            (#[trigger] d0.entries[b]).created_at,
                            now@,
                        )),
                    found ==> pos < en && a == pos && lex_le(d0.entries[pos as int].created_at, now@)
                        && (forall|b: int|
                        0 <= b < pos ==> !lex_le((#[trigger] d0.entries[b]).created_at, now@)),
                    !found ==> pos == en,
                decreases en - a + (if found { 0int } else { 1int }),
            {
                proof {
                    assert(d0.entries[a as int] == self.entries@[a as int]@);
                }
                if str_lex_le(self.entries[a].created_at.as_str(), now) {
                    pos = a;
                    found = true;
                } else {
                    a = a + 1;
                }
            }
            proof {
                lemma_insert_pos_props(d0.entries, now@);
                let ip = insert_pos(d0.entries, now@);
                if found {
                    if ip < pos {
                        assert(!lex_le(d0.entries[ip].created_at, now@));
                        assert(false);
                    }
                    if ip > pos {
                        assert(!lex_le(d0.entries[pos as int].created_at, now@));
                        assert(false);
                    }
                } else {
                    if ip < en {
                        assert(!lex_le(d0.entries[ip].created_at, now@));
                        assert(false);
                    }
                }
                assert(pos as int == insert_pos(d0.entries, now@));
            }
            let mut es2: Vec<EntryRow> = Vec::new();
            let mut b: usize = 0;
            while b < pos
                invariant
                    pos <= en,
                    en == self@.entries.len(),
                    b <= pos,
                    self == old(self),
                    d0 == self@,
                    es2.deep_view() == d0.entries.take(b as int),
                decreases pos - b,
            {
                let row = &self.entries[b];
                let ghost pre = es2.deep_view();
                proof {
                    assert(d0.entries[b as int] == self.entries@[b as int]@);
                }
                es2.push(
                    EntryRow {
                        id: row.id.clone(),
                        title: row.title.clone(),
                        body_envelope: row.body_envelope.clone(),
                        created_at: row.created_at.clone(),
                        updated_at: row.updated_at.clone(),
                    },
                );
                proof {
                    assert(es2.deep_view() =~= pre.push(d0.entries[b as int]));
                    assert(es2.deep_view() =~= d0.entries.take(b as int + 1));
                }
                b = b + 1;
            }
            es2.push(
                EntryRow {
                    id: fresh_id.to_owned(),
                    title: title.to_owned(),
                    body_envelope: envelope.to_owned(),
                    created_at: now.to_owned(),
                    updated_at: now.to_owned(),
                },
            );
            proof {
                assert(es2.deep_view() =~= d0.entries.take(pos as int).push(e));
            }
            let mut c: usize = pos;
            while c < en
                invariant
                    pos <= c <= en,
                    en == self@.entries.len(),
                    self == old(self),
                    d0 == self@,
                    es2.deep_view() == d0.entries.take(pos as int).push(e) + d0.entries.subrange(
                        pos as int,
                        c as int,
                    ),
                decreases en - c,
            {
                let row = &self.entries[c];
                let ghost pre = es2.deep_view();
                proof {
                    assert(d0.entries[c as int] == self.entries@[c as int]@);
                }
                es2.push(
                    EntryRow {
                        id: row.id.clone(),
                        title: row.title.clone(),
                        body_envelope: row.body_envelope.clone(),
                        created_at: row.created_at.clone(),
                        updated_at: row.updated_at.clone(),
                    },
                );
                proof {
                    assert(es2.deep_view() =~= pre.push(d0.entries[c as int]));
                    assert(es2.deep_view() =~= d0.entries.take(pos as int).push(e)
                        + d0.entries.subrange(pos as int, c as int + 1));
                }
                c = c + 1;
            }
            self.entries = es2;
            proof {
                assert(d0.entries.take(pos as int).push(e) + d0.entries.subrange(
                    pos as int,
                    en as int,
                ) =~= d0.entries.insert(pos as int, e));
                assert(self@.entries =~= insert_entry(d0.entries, e));
            }
        }

        // commit the reconciled tag tables
        self.tags = new_tags;
        self.taggings = new_tgs;
        proof {
            let result = save_tx(
                d0,
                opt_id_view(id),
                fresh_id@,
                title@,
                envelope@,
                now@,
                names,
                mv,
            );
            assert(result == Some(self@)) by {
                match opt_id_view(id) {
                    Some(x) => {
                        assert(x == eidv);
                    },
                    None => {},
                }
                assert(self@ =~= result.unwrap());
            }
            lemma_save_tx_wf(d0, opt_id_view(id), fresh_id@, title@, envelope@, now@, names, mv);
        }
        Ok(eid_str)
    }

    /// Upsert an entry: encrypt the body, stamp the instant, mint the
    /// identifiers, and run the transaction. With an identifier the row is
    /// updated (a no-op for an unknown one, which still returns it as if
    /// saved) and its tag set replaced; without one a fresh row is created.
    pub fn save_diary(
        &mut self,
        id: Option<&str>,
        title: &str,
        content: &str,
        tags: &Vec<String>,
    ) -> (r: Result<String, StoreError>)
        requires
            old(self).wf(),
        ensures
            final(self).wf(),
            final(self).key_view() == old(self).key_view(),
            r matches Ok(rid) ==> (exists|env: Seq<char>, now: Seq<char>, fresh: Seq<char>, mv: Seq<
                Seq<char>,
            >|
                {
                    &&& decrypt_spec(old(self).key_view(), env) == Some(content@)
                    &&& (parse_envelope_spec(env) matches Some(p) && p.0.len() == 12 && p.1.len()
                        == encode_utf8(content@).len() + 16)
                    &&& is_rfc3339(now)
                    &&& #[trigger] save_tx(
                        old(self)@,
                        opt_id_view(id),
                        fresh,
                        title@,
                        env,
                        now,
                        tags.deep_view(),
                        mv,
                    ) == Some(final(self)@)
                    &&& rid@ == save_id(opt_id_view(id), fresh)
                    &&& (id matches Some(x) ==> rid@ == x@)
                }),
            r matches Ok(rid) ==> (id is None ==> rid@.len() == 36),
            r matches Err(e) ==> final(self)@ == old(self)@ && (e == StoreError::Conflict
                || e matches StoreError::Crypto(_)),
            r matches Err(e) ==> (e matches StoreError::Crypto(_) ==> encode_utf8(
                content@,
            ).len() > 0x10_0000_0000),
            ({
                &&& id is Some
                &&& encode_utf8(content@).len() <= 0x10_0000_0000
                &&& forall|k: int|
                    0 <= k < tags.deep_view().len() ==> has_tag_name(
                        old(self)@.tags,
                        #[trigger] tags.deep_view()[k],
                    )
            }) ==> r is Ok,
    {
        let env = match self.crypto.encrypt(content) {
            Err(ce) => {
                return Err(StoreError::Crypto(ce));
            },
            Ok(env) => env,
        };
        let now = now_rfc3339();
        let fresh = new_uuid();
        let mut mints: Vec<String> = Vec::new();
        let n = tags.len();
        let mut k: usize = 0;
        while k < n
            invariant
                k <= n,
                mints@.len() == k,
            decreases n - k,
        {
            mints.push(new_uuid());
            k = k + 1;
        }
        proof {
            // when every tag name is already present, reconciliation consults
            // no minted identifier, so an update is owed success
            match id {
                Some(x) => {
                    if forall|j: int|
                        0 <= j < tags.deep_view().len() ==> has_tag_name(
                            self@.tags,
                            #[trigger] tags.deep_view()[j],
                        ) {
                        lemma_apply_tags_all_present(
                            self@.tags,
                            self@.taggings.filter(|t: TaggingV| t.diary_id != x@),
                            has_entry(self@.entries, x@),
                            x@,
                            tags.deep_view(),
                            mints.deep_view(),
                        );
                        assert(save_tx(
                            self@,
                            opt_id_view(id),
                            fresh@,
                            title@,
                            env@,
                            now@,
                            tags.deep_view(),
                            mints.deep_view(),
                        ) is Some);
                    }
                },
                None => {},
            }
        }
        let r = self.save_diary_with(
            id,
            title,
            env.as_str(),
            now.as_str(),
            fresh.as_str(),
            &mints,
            tags,
        );
        match r {
            Ok(rid) => {
                proof {
                    let witness_env = env@;
                    let witness_now = now@;
                    let witness_fresh = fresh@;
                    let witness_mv = mints.deep_view();
                    assert(save_tx(
                        old(self)@,
                        opt_id_view(id),
                        witness_fresh,
                        title@,
                        witness_env,
                        witness_now,
                        tags.deep_view(),
                        witness_mv,
                    ) == Some(final(self)@));
                    if id is None {
                        assert(rid@ == fresh@);
                    }
                }
                Ok(rid)
            },
            Err(e) => Err(e),
        }
    }

    /// Every relationship an entry participates in, as parent or child, in
    /// table order.
    pub fn get_relationships(&self, diary_id: &str) -> (r: Result<Vec<Relationship>, StoreError>)
        requires
            self.wf(),
        ensures
            (r matches Ok(v) && v.deep_view() == rels_of(self@, diary_id@)),
    {
        let ghost keep = |x: RelV| x.parent_id == diary_id@ || x.child_id == diary_id@;
        let n = self.relationships.len();
        let mut out: Vec<Relationship> = Vec::new();
        let mut i: usize = 0;
        proof {
            assert(out.deep_view() =~= self@.relationships.take(0).filter(keep));
        }
        while i < n
            invariant
                n == self@.relationships.len(),
                i <= n,
                keep == (|x: RelV| x.parent_id == diary_id@ || x.child_id == diary_id@),
                out.deep_view() == self@.relationships.take(i as int).filter(keep),
            decreases n - i,
        {
            let x = &self.relationships[i];
            let ghost pre = out.deep_view();
            let ghost elem = self@.relationships[i as int];
            proof {
                assert(elem == self.relationships@[i as int]@);
            }
            if str_eq(x.parent_id.as_str(), diary_id) || str_eq(x.child_id.as_str(), diary_id) {
                out.push(
                    Relationship {
                        id: x.id.clone(),
                        parent_id: x.parent_id.clone(),
                        child_id: x.child_id.clone(),
                        relationship_type: x.relationship_type.clone(),
                        created_at: x.created_at.clone(),
                    },
                );
                proof {
                    assert(keep(elem));
                    assert(out.deep_view() =~= pre.push(elem));
                }
            } else {
                proof {
                    assert(!keep(elem));
                }
            }
            proof {
                lemma_filter_push(
                    self@.relationships.take(i as int),
                    self@.relationships[i as int],
                    keep,
                );
                assert(self@.relationships.take(i as int).push(self@.relationships[i as int])
                    =~= self@.relationships.take(i as int + 1));
                assert(out.deep_view() =~= self@.relationships.take(i as int + 1).filter(keep));
            }
            i = i + 1;
        }
        proof {
            assert(self@.relationships.take(n as int) =~= self@.relationships);
        }
        Ok(out)
    }
}

/// The request validation the command layer performs before a relationship
/// is recorded: a call with no parameter at all is rejected, both endpoint
/// identifiers must be present and non-empty, and the kind defaults to
/// `depends_on`. A fresh identifier is minted for the relationship.
pub fn add_relationship_request(
    db: &mut DiaryDB,
    parent_id: Option<String>,
    child_id: Option<String>,
    relationship_type: Option<String>,
) -> (r: Result<String, String>)
    requires
        old(db).wf(),
    ensures
        final(db).wf(),
        final(db).key_view() == old(db).key_view(),
        r is Err ==> final(db)@ == old(db)@,
        (parent_id is None || child_id is None || (parent_id matches Some(p) && p@.len() == 0) || (
        child_id matches Some(c) && c@.len() == 0)) ==> r is Err,
        (parent_id is None && child_id is None && relationship_type is None) ==> (r matches Err(m)
            && m@ == "Empty relationship parameters - operation aborted"@),
        (!(parent_id is None && child_id is None && relationship_type is None) && parent_id
            is None) ==> (r matches Err(m) && m@ == "Parent ID is required"@),
        (!(parent_id is None && child_id is None && relationship_type is None) && parent_id
            is Some && child_id is None) ==> (r matches Err(m) && m@ == "Child ID is required"@),
        (parent_id matches Some(p) && p@.len() == 0 && child_id is Some) ==> (r matches Err(m)
            && m@ == "Parent ID is required"@),
        ({
            &&& parent_id matches Some(p)
            &&& p@.len() > 0
            &&& child_id matches Some(c)
            &&& c@.len() == 0
        }) ==> (r matches Err(m) && m@ == "Child ID is required"@),
        ({
            &&& parent_id matches Some(p)
            &&& p@.len() > 0
            &&& child_id matches Some(c)
            &&& c@.len() > 0
            &&& r is Err
        }) ==> (r matches Err(m) && m@ == "constraint violation"@),
        r matches Ok(rid) ==> ({
            &&& parent_id matches Some(p) && p@.len() > 0
            &&& child_id matches Some(c) && c@.len() > 0
            &&& final(db)@.relationships.len() == old(db)@.relationships.len() + 1
            &&& final(db)@.relationships.take(old(db)@.relationships.len() as int) == old(
                db,
            )@.relationships
            &&& final(db)@.relationships.last().id == rid@
            &&& (parent_id matches Some(p) && final(db)@.relationships.last().parent_id == p@)
            &&& (child_id matches Some(c) && final(db)@.relationships.last().child_id == c@)
            &&& final(db)@.relationships.last().relationship_type == (match relationship_type {
                Some(t) => t@,
                None => "depends_on"@,
            })
            &&& final(db)@.entries == old(db)@.entries
            &&& final(db)@.tags == old(db)@.tags
            &&& final(db)@.taggings == old(db)@.taggings
        }),
{
    if parent_id.is_none() && child_id.is_none() && relationship_type.is_none() {
        return Err(String::from_str("Empty relationship parameters - operation aborted"));
    }
    let parent = match parent_id {
        Some(p) => p,
        None => {
            return Err(String::from_str("Parent ID is required"));
        },
    };
    let child = match child_id {
        Some(c) => c,
        None => {
            return Err(String::from_str("Child ID is required"));
        },
    };
    let kind = match relationship_type {
        Some(t) => t,
        None => String::from_str("depends_on"),
    };
    if parent.as_str().is_empty() {
        return Err(String::from_str("Parent ID is required"));
    }
    if child.as_str().is_empty() {
        return Err(String::from_str("Child ID is required"));
    }
    let rid = new_uuid();
    match db.add_relationship(rid.as_str(), parent.as_str(), child.as_str(), kind.as_str()) {
        Ok(out) => Ok(out),
        Err(e) => Err(String::from_str(e.message())),
    }
}

} // verus!
