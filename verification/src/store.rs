//! The storage container at the core of the clipboard history: a content
//! store that holds each distinct payload exactly once, addressed by its
//! content hash, and an append-only recency ledger whose entries reference
//! content rows. Ingestion deduplicates by hash and collapses rapid re-copies
//! under a time-and-activity throttle; queries join the ledger with the
//! content store, newest entry first.

use vstd::prelude::*;

use crate::clock::now_millis;
use crate::config::Config;
use crate::hashing::hash_bytes;
use crate::hashing::sha256_hex;
use crate::text::contains_seq;
use crate::text::contains_substring;
use vstd::utf8::encode_utf8;

verus! {

/// One deduplicated content row. Exactly one of the text and image field
/// groups is populated, matching `type_of` (0 for text, 1 for images).
pub struct CopiedData {
    pub id: usize,
    pub hash: String,
    pub is_starred: bool,
    pub type_of: u8,
    pub text_size: Option<usize>,
    pub text_data: Option<String>,
    pub html_size: Option<usize>,
    pub html_data: Option<String>,
    pub image_size: Option<usize>,
    pub image_data: Option<Vec<u8>>,
    pub image_thumb_size: Option<usize>,
    pub image_thumb_data: Option<Vec<u8>>,
}

/// One observation in the recency ledger: content `row_id` was seen on the
/// clipboard at millisecond timestamp `date`. Entry identities grow with
/// insertion order, so identity order is recency order.
#[derive(Clone, Copy, PartialEq, Eq, Structural, Debug)]
pub struct LastCopied {
    pub id: usize,
    pub row_id: usize,
    pub date: usize,
}

/// The three query modes over the ledger.
pub enum StorageQuery {
    Recent { limit: usize, skip: usize },
    Search { value: String },
    Favorites,
}

/// The payload carried by one query result row: raw text, raw thumbnail
/// bytes, or a renderer-side texture handle that a presentation layer may
/// substitute for thumbnail bytes it has uploaded.
#[derive(Debug, PartialEq)]
pub enum ReturnedItemType {
    Text(String),
    Thumb(Vec<u8>),
    ThumbTextureId(u64),
}

/// One query result row: the joined recency entry and content row.
#[derive(Debug)]
pub struct ReturnedItem {
    pub data_id: usize,
    pub value: ReturnedItemType,
    pub is_favorite: bool,
    pub recent_id: usize,
    pub timestamp: usize,
}

/// Errors of the storage layer.
#[derive(Clone, Copy, PartialEq, Eq, Structural, Debug)]
pub enum StorageError {
    /// A lookup found no row to return.
    NotFound,
    /// An aggregate does not fit the machine word.
    Overflow,
}

/// The mathematical model of a storage container: the two tables and the two
/// identity counters.
pub struct StoreView {
    pub contents: Seq<CopiedData>,
    pub recents: Seq<LastCopied>,
    pub next_content_id: int,
    pub next_recent_id: int,
}

/// The byte length a string is stored with: the length of its UTF-8 encoding,
/// as the machine word the executable code measures.
pub open spec fn utf8_len(s: Seq<char>) -> usize {
    encode_utf8(s).len() as usize
}

/// A coherent text row: the text field group populated with sizes matching
/// the data, the image field group empty.
pub open spec fn text_record(c: CopiedData) -> bool {
    &&& c.type_of == 0u8
    &&& c.text_data is Some
    &&& c.text_size is Some
    &&& c.text_size.unwrap() == utf8_len(c.text_data.unwrap()@)
    &&& match c.html_data {
        Some(h) => c.html_size is Some && c.html_size.unwrap() == utf8_len(h@),
        None => c.html_size is None,
    }
    &&& c.image_size is None
    &&& c.image_data is None
    &&& c.image_thumb_size is None
    &&& c.image_thumb_data is None
}

/// A coherent image row: the image field group populated with sizes matching
/// the data, the text field group empty.
pub open spec fn image_record(c: CopiedData) -> bool {
    &&& c.type_of == 1u8
    &&& c.image_data is Some
    &&& c.image_size is Some
    &&& c.image_size.unwrap() == c.image_data.unwrap()@.len()
    &&& match c.image_thumb_data {
        Some(t) => c.image_thumb_size is Some && c.image_thumb_size.unwrap() == t@.len(),
        None => c.image_thumb_size is None,
    }
    &&& c.text_size is None
    &&& c.text_data is None
    &&& c.html_size is None
    &&& c.html_data is None
}

/// A coherent content row of either kind.
pub open spec fn valid_record(c: CopiedData) -> bool {
    text_record(c) || image_record(c)
}

/// Some content row carries this identity.
pub open spec fn has_content(cs: Seq<CopiedData>, id: usize) -> bool {
    exists|j: int| 0 <= j < cs.len() && (#[trigger] cs[j]).id == id
}

/// Some ledger entry references this content identity.
pub open spec fn has_entry(rs: Seq<LastCopied>, id: usize) -> bool {
    exists|j: int| 0 <= j < rs.len() && (#[trigger] rs[j]).row_id == id
}

/// Index of the first content row at or after `i` whose hash reads `h`.
pub open spec fn index_of_hash_from(cs: Seq<CopiedData>, h: Seq<char>, i: int) -> Option<int>
    decreases cs.len() - i + 1,
{
    if i < 0 || i >= cs.len() {
        None
    } else if cs[i].hash@ == h {
        Some(i)
    } else {
        index_of_hash_from(cs, h, i + 1)
    }
}

/// Index of the first content row whose hash reads `h`.
pub open spec fn index_of_hash(cs: Seq<CopiedData>, h: Seq<char>) -> Option<int> {
    index_of_hash_from(cs, h, 0)
}

/// `index_of_hash_from` finds the least matching index at or after `i`, and
/// `None` exactly when no row at or after `i` matches.
pub proof fn lemma_index_of_hash_from_spec(cs: Seq<CopiedData>, h: Seq<char>, i: int)
    requires
        0 <= i,
    ensures
        match index_of_hash_from(cs, h, i) {
            Some(j) => i <= j < cs.len() && cs[j].hash@ == h && forall|k: int|
                i <= k < j ==> (#[trigger] cs[k]).hash@ != h,
            None => forall|k: int| i <= k < cs.len() ==> (#[trigger] cs[k]).hash@ != h,
        },
    decreases cs.len() - i + 1,
{
    if i < cs.len() && cs[i].hash@ != h {
        lemma_index_of_hash_from_spec(cs, h, i + 1);
    }
}

/// Index of the first content row at or after `i` with this identity.
pub open spec fn index_of_content_from(cs: Seq<CopiedData>, id: usize, i: int) -> Option<int>
    decreases cs.len() - i + 1,
{
    if i < 0 || i >= cs.len() {
        None
    } else if cs[i].id == id {
        Some(i)
    } else {
        index_of_content_from(cs, id, i + 1)
    }
}

/// Index of the first content row with this identity.
pub open spec fn index_of_content(cs: Seq<CopiedData>, id: usize) -> Option<int> {
    index_of_content_from(cs, id, 0)
}

/// `index_of_content_from` finds the least matching index at or after `i`,
/// and `None` exactly when no row at or after `i` matches.
pub proof fn lemma_index_of_content_from_spec(cs: Seq<CopiedData>, id: usize, i: int)
    requires
        0 <= i,
    ensures
        match index_of_content_from(cs, id, i) {
            Some(j) => i <= j < cs.len() && cs[j].id == id && forall|k: int|
                i <= k < j ==> (#[trigger] cs[k]).id != id,
            None => forall|k: int| i <= k < cs.len() ==> (#[trigger] cs[k]).id != id,
        },
    decreases cs.len() - i + 1,
{
    if i < cs.len() && cs[i].id != id {
        lemma_index_of_content_from_spec(cs, id, i + 1);
    }
}

/// Index of the newest ledger entry below position `i` that references the
/// content identity `cid`.
pub open spec fn last_entry_before(rs: Seq<LastCopied>, cid: usize, i: int) -> Option<int>
    decreases i,
{
    if i <= 0 || i > rs.len() {
        None
    } else if rs[i - 1].row_id == cid {
        Some(i - 1)
    } else {
        last_entry_before(rs, cid, i - 1)
    }
}

/// Index of the newest ledger entry referencing the content identity `cid`.
pub open spec fn last_entry_index(rs: Seq<LastCopied>, cid: usize) -> Option<int> {
    last_entry_before(rs, cid, rs.len() as int)
}

/// `last_entry_before` finds the greatest matching index below `i`, and
/// `None` exactly when no entry below `i` matches.
pub proof fn lemma_last_entry_before_spec(rs: Seq<LastCopied>, cid: usize, i: int)
    requires
        i <= rs.len(),
    ensures
        match last_entry_before(rs, cid, i) {
            Some(j) => 0 <= j < i && rs[j].row_id == cid && forall|k: int|
                j < k < i ==> (#[trigger] rs[k]).row_id != cid,
            None => forall|k: int| 0 <= k < i ==> (#[trigger] rs[k]).row_id != cid,
        },
    decreases i,
{
    if 0 < i && rs[i - 1].row_id != cid {
        lemma_last_entry_before_spec(rs, cid, i - 1);
    }
}

/// Number of ledger entries below position `i` whose timestamp lies strictly
/// after `t`.
pub open spec fn count_newer_upto(rs: Seq<LastCopied>, t: int, i: int) -> int
    decreases i,
{
    if i <= 0 {
        0
    } else {
        count_newer_upto(rs, t, i - 1) + if rs[i - 1].date > t {
            1int
        } else {
            0int
        }
    }
}

/// Number of ledger entries whose timestamp lies strictly after `t`.
pub open spec fn count_newer(rs: Seq<LastCopied>, t: int) -> int {
    count_newer_upto(rs, t, rs.len() as int)
}

/// Sum of the stored text sizes of the first `i` content rows; rows without a
/// text size contribute nothing.
pub open spec fn total_text_size_upto(cs: Seq<CopiedData>, i: int) -> int
    decreases i,
{
    if i <= 0 {
        0
    } else {
        total_text_size_upto(cs, i - 1) + text_size_of(cs[i - 1])
    }
}

/// The text size one content row contributes to the total.
pub open spec fn text_size_of(c: CopiedData) -> int {
    match c.text_size {
        Some(n) => n as int,
        None => 0,
    }
}

/// Sum of the stored text sizes of all content rows.
pub open spec fn total_text_size(cs: Seq<CopiedData>) -> int {
    total_text_size_upto(cs, cs.len() as int)
}

/// Partial text-size sums never shrink as more rows are added.
pub proof fn lemma_total_text_size_monotone(cs: Seq<CopiedData>, i: int, j: int)
    requires
        i <= j,
    ensures
        total_text_size_upto(cs, i) <= total_text_size_upto(cs, j),
    decreases j - i,
{
    if i < j {
        lemma_total_text_size_monotone(cs, i, j - 1);
    }
}

/// The container's well-formedness: coherent rows, identities unique and
/// below their counter, hashes unique, ledger identities strictly increasing
/// with position, every entry referencing a live content row, and every
/// content row represented by at least one entry.
pub open spec fn wf_view(v: StoreView) -> bool {
    &&& forall|i: int| 0 <= i < v.contents.len() ==> valid_record(#[trigger] v.contents[i])
    &&& forall|i: int| 0 <= i < v.contents.len() ==> (#[trigger] v.contents[i]).id
        < v.next_content_id
    &&& forall|i: int, j: int|
        0 <= i < j < v.contents.len() ==> (#[trigger] v.contents[i]).id != (
        #[trigger] v.contents[j]).id
    &&& forall|i: int, j: int|
        0 <= i < j < v.contents.len() ==> (#[trigger] v.contents[i]).hash@ != (
        #[trigger] v.contents[j]).hash@
    &&& forall|i: int| 0 <= i < v.recents.len() ==> (#[trigger] v.recents[i]).id
        < v.next_recent_id
    &&& forall|i: int, j: int|
        0 <= i < j < v.recents.len() ==> (#[trigger] v.recents[i]).id < (
        #[trigger] v.recents[j]).id
    &&& forall|i: int|
        0 <= i < v.recents.len() ==> has_content(v.contents, (#[trigger] v.recents[i]).row_id)
    &&& forall|i: int|
        0 <= i < v.contents.len() ==> has_entry(v.recents, (#[trigger] v.contents[i]).id)
    &&& 0 <= v.next_content_id <= usize::MAX
    &&& 0 <= v.next_recent_id <= usize::MAX
}

/// Both identity counters have room for one more row, which every ingestion
/// may need.
pub open spec fn room_for_ingest(v: StoreView) -> bool {
    v.next_content_id < usize::MAX && v.next_recent_id < usize::MAX
}

/// The recency-collapse decision and its effect: a repeat observation of
/// content `cid` at time `now` appends a fresh ledger entry only when more
/// than sixty whole minutes have passed since the content's newest entry and
/// at least thirty other observations have been recorded since; otherwise the
/// ledger is left as it stands.
pub open spec fn spec_touch(v: StoreView, cid: usize, now: usize) -> StoreView {
    match last_entry_index(v.recents, cid) {
        Some(li) => {
            let last = v.recents[li];
            let minutes = if now >= last.date {
                (now - last.date) / 60000
            } else {
                0
            };
            if minutes > 60 && count_newer(v.recents, last.date as int) >= 30 {
                StoreView {
                    contents: v.contents,
                    recents: v.recents.push(
                        LastCopied { id: v.next_recent_id as usize, row_id: cid, date: now },
                    ),
                    next_content_id: v.next_content_id,
                    next_recent_id: v.next_recent_id + 1,
                }
            } else {
                v
            }
        },
        None => v,
    }
}

/// The fields of a freshly inserted text row: identity `id`, hash `h`, not a
/// favorite, the text group populated from the payload, the image group empty.
pub open spec fn new_text_record(
    c: CopiedData,
    id: int,
    h: Seq<char>,
    text: String,
    html: Option<String>,
) -> bool {
    &&& c.id == id
    &&& c.hash@ == h
    &&& c.is_starred == false
    &&& c.type_of == 0u8
    &&& c.text_data == Some(text)
    &&& c.text_size == Some(utf8_len(text@))
    &&& c.html_data == html
    &&& match html {
        Some(hh) => c.html_size == Some(utf8_len(hh@)),
        None => c.html_size is None,
    }
    &&& c.image_size is None
    &&& c.image_data is None
    &&& c.image_thumb_size is None
    &&& c.image_thumb_data is None
}

/// The fields of a freshly inserted image row: identity `id`, hash `h`, not a
/// favorite, the image group populated from the payload, the text group empty.
pub open spec fn new_image_record(
    c: CopiedData,
    id: int,
    h: Seq<char>,
    image: Vec<u8>,
    thumb: Option<Vec<u8>>,
) -> bool {
    &&& c.id == id
    &&& c.hash@ == h
    &&& c.is_starred == false
    &&& c.type_of == 1u8
    &&& c.image_data == Some(image)
    &&& c.image_size == Some(image@.len() as usize)
    &&& c.image_thumb_data == thumb
    &&& match thumb {
        Some(t) => c.image_thumb_size == Some(t@.len() as usize),
        None => c.image_thumb_size is None,
    }
    &&& c.text_size is None
    &&& c.text_data is None
    &&& c.html_size is None
    &&& c.html_data is None
}

/// A fresh content row described by `new_row` was appended, together with its
/// first ledger entry at time `now`, and both counters moved on by one.
pub open spec fn inserted_row(
    pre: StoreView,
    post: StoreView,
    new_row: spec_fn(CopiedData) -> bool,
    now: usize,
) -> bool {
    &&& post.contents.len() == pre.contents.len() + 1
    &&& post.contents.subrange(0, pre.contents.len() as int) == pre.contents
    &&& new_row(post.contents.last())
    &&& post.contents.last().id == pre.next_content_id
    &&& post.next_content_id == pre.next_content_id + 1
    &&& post.recents == pre.recents.push(
        LastCopied {
            id: pre.next_recent_id as usize,
            row_id: pre.next_content_id as usize,
            date: now,
        },
    )
    &&& post.next_recent_id == pre.next_recent_id + 1
}

/// How one text ingestion at time `now` relates the store before and after:
/// an oversized payload changes nothing; a payload whose hash is already
/// stored only touches the ledger under the recency-collapse rule; a new
/// payload is inserted with its first ledger entry.
pub open spec fn text_ingest(
    pre: StoreView,
    post: StoreView,
    text: String,
    html: Option<String>,
    max_mb: usize,
    now: usize,
) -> bool {
    if utf8_len(text@) > max_mb * 1000000 {
        post == pre
    } else {
        let h = sha256_hex(encode_utf8(text@));
        match index_of_hash(pre.contents, h) {
            Some(ci) => post == spec_touch(pre, pre.contents[ci].id, now),
            None => inserted_row(
                pre,
                post,
                |c: CopiedData| new_text_record(c, pre.next_content_id, h, text, html),
                now,
            ),
        }
    }
}

/// How one image ingestion at time `now` relates the store before and after;
/// the three cases mirror those of `text_ingest`.
pub open spec fn image_ingest(
    pre: StoreView,
    post: StoreView,
    image: Vec<u8>,
    thumb: Option<Vec<u8>>,
    max_mb: usize,
    now: usize,
) -> bool {
    if image@.len() > max_mb * 1000000 {
        post == pre
    } else {
        let h = sha256_hex(image@);
        match index_of_hash(pre.contents, h) {
            Some(ci) => post == spec_touch(pre, pre.contents[ci].id, now),
            None => inserted_row(
                pre,
                post,
                |c: CopiedData| new_image_record(c, pre.next_content_id, h, image, thumb),
                now,
            ),
        }
    }
}

/// The first `i` ledger entries with every entry referencing content `id`
/// removed, order kept.
pub open spec fn without_upto(rs: Seq<LastCopied>, id: usize, i: int) -> Seq<LastCopied>
    decreases i,
{
    if i <= 0 {
        Seq::empty()
    } else {
        without_upto(rs, id, i - 1) + if rs[i - 1].row_id == id {
            Seq::<LastCopied>::empty()
        } else {
            seq![rs[i - 1]]
        }
    }
}

/// The ledger with every entry referencing content `id` removed, order kept.
pub open spec fn without_content(rs: Seq<LastCopied>, id: usize) -> Seq<LastCopied> {
    without_upto(rs, id, rs.len() as int)
}

/// Number of entries among the first `i` that reference content `id`.
pub open spec fn count_entries_upto(rs: Seq<LastCopied>, id: usize, i: int) -> int
    decreases i,
{
    if i <= 0 {
        0
    } else {
        count_entries_upto(rs, id, i - 1) + if rs[i - 1].row_id == id {
            1int
        } else {
            0int
        }
    }
}

/// Number of ledger entries referencing content `id`.
pub open spec fn count_entries(rs: Seq<LastCopied>, id: usize) -> int {
    count_entries_upto(rs, id, rs.len() as int)
}

/// What removing one content's entries leaves: the kept and removed counts
/// add up, every kept entry references another content, every kept entry
/// comes from the ledger it was filtered from, every surviving entry is kept,
/// and the kept entries stay in strictly increasing identity order when the
/// whole ledger's were.
pub proof fn lemma_without_props(rs: Seq<LastCopied>, id: usize, i: int)
    requires
        0 <= i <= rs.len(),
        forall|j1: int, j2: int|
            0 <= j1 < j2 < rs.len() ==> (#[trigger] rs[j1]).id < (#[trigger] rs[j2]).id,
    ensures
        without_upto(rs, id, i).len() + count_entries_upto(rs, id, i) == i,
        forall|k: int|
            0 <= k < without_upto(rs, id, i).len() ==> (#[trigger] without_upto(rs, id, i)[k]).row_id
                != id,
        forall|k: int|
            0 <= k < without_upto(rs, id, i).len() ==> exists|j: int|
                0 <= j < i && #[trigger] without_upto(rs, id, i)[k] == rs[j],
        forall|j: int|
            0 <= j < i && (#[trigger] rs[j]).row_id != id ==> without_upto(rs, id, i).contains(
                rs[j],
            ),
        forall|k1: int, k2: int|
            0 <= k1 < k2 < without_upto(rs, id, i).len() ==> (#[trigger] without_upto(
                rs,
                id,
                i,
            )[k1]).id < (#[trigger] without_upto(rs, id, i)[k2]).id,
    decreases i,
{
    if i > 0 {
        lemma_without_props(rs, id, i - 1);
        let prev = without_upto(rs, id, i - 1);
        let cur = without_upto(rs, id, i);
        if rs[i - 1].row_id == id {
            assert(cur =~= prev);
        } else {
            assert(cur =~= prev.push(rs[i - 1]));
            assert forall|j: int|
                0 <= j < i && (#[trigger] rs[j]).row_id != id implies cur.contains(rs[j]) by {
                if j < i - 1 {
                    let k = choose|k: int| 0 <= k < prev.len() && prev[k] == rs[j];
                    assert(cur[k] == rs[j]);
                } else {
                    assert(cur[cur.len() - 1] == rs[j]);
                }
            }
            assert forall|k1: int, k2: int| 0 <= k1 < k2 < cur.len() implies (
            #[trigger] cur[k1]).id < (#[trigger] cur[k2]).id by {
                if k2 == cur.len() - 1 {
                    let j1 = choose|j: int| 0 <= j < i - 1 && #[trigger] prev[k1] == rs[j];
                    assert(rs[j1].id < rs[i - 1].id);
                }
            }
        }
    }
}

/// The same content row with its favorite flag replaced.
pub open spec fn with_flag(c: CopiedData, v: bool) -> CopiedData {
    CopiedData {
        id: c.id,
        hash: c.hash,
        is_starred: v,
        type_of: c.type_of,
        text_size: c.text_size,
        text_data: c.text_data,
        html_size: c.html_size,
        html_data: c.html_data,
        image_size: c.image_size,
        image_data: c.image_data,
        image_thumb_size: c.image_thumb_size,
        image_thumb_data: c.image_thumb_data,
    }
}

/// The thumbnail bytes a query row carries for an image record: the stored
/// thumbnail, or nothing when none was captured.
pub open spec fn thumb_view(c: CopiedData) -> Seq<u8> {
    match c.image_thumb_data {
        Some(t) => t@,
        None => Seq::empty(),
    }
}

/// A result row faithfully joins the ledger entry `e` with the content row it
/// references: identities, timestamp and favorite flag carried over, and the
/// payload variant matching the content's kind.
pub open spec fn row_matches(item: ReturnedItem, e: LastCopied, v: StoreView) -> bool {
    match index_of_content(v.contents, e.row_id) {
        Some(ci) => {
            let c = v.contents[ci];
            &&& item.recent_id == e.id
            &&& item.timestamp == e.date
            &&& item.data_id == c.id
            &&& item.is_favorite == c.is_starred
            &&& (c.type_of == 0u8 ==> (item.value matches ReturnedItemType::Text(t) && t@
                == c.text_data.unwrap()@))
            &&& (c.type_of == 1u8 ==> (item.value matches ReturnedItemType::Thumb(b) && b@
                == thumb_view(c)))
        },
        None => false,
    }
}

/// Whether the content a ledger entry references is flagged as a favorite.
pub open spec fn entry_is_fav(v: StoreView, e: LastCopied) -> bool {
    match index_of_content(v.contents, e.row_id) {
        Some(ci) => v.contents[ci].is_starred,
        None => false,
    }
}

/// The ledger entries at or after position `i` whose content is a favorite,
/// newest first.
pub open spec fn fav_entries_from(v: StoreView, i: int) -> Seq<LastCopied>
    decreases v.recents.len() - i + 1,
{
    if i < 0 || i >= v.recents.len() {
        Seq::empty()
    } else {
        fav_entries_from(v, i + 1) + if entry_is_fav(v, v.recents[i]) {
            seq![v.recents[i]]
        } else {
            Seq::<LastCopied>::empty()
        }
    }
}

/// All favorite ledger entries, newest first.
pub open spec fn fav_entries(v: StoreView) -> Seq<LastCopied> {
    fav_entries_from(v, 0)
}

/// The entry at position `i` is its content's oldest ledger entry.
pub open spec fn entry_first_for_content(rs: Seq<LastCopied>, i: int) -> bool {
    forall|j: int| 0 <= j < i ==> (#[trigger] rs[j]).row_id != rs[i].row_id
}

/// Whether the content a ledger entry references is text that contains the
/// needle as a literal substring.
pub open spec fn entry_matches_search(v: StoreView, e: LastCopied, needle: Seq<char>) -> bool {
    match index_of_content(v.contents, e.row_id) {
        Some(ci) => {
            let c = v.contents[ci];
            c.type_of == 0u8 && c.text_data is Some && contains_seq(c.text_data.unwrap()@, needle)
        },
        None => false,
    }
}

/// The ledger entries at or after position `i` that represent a search hit:
/// their content is text containing the needle, and each matching content
/// contributes only its oldest entry; newest such entry first.
pub open spec fn search_entries_from(v: StoreView, needle: Seq<char>, i: int) -> Seq<LastCopied>
    decreases v.recents.len() - i + 1,
{
    if i < 0 || i >= v.recents.len() {
        Seq::empty()
    } else {
        search_entries_from(v, needle, i + 1) + if entry_first_for_content(v.recents, i)
            && entry_matches_search(v, v.recents[i], needle) {
            seq![v.recents[i]]
        } else {
            Seq::<LastCopied>::empty()
        }
    }
}

/// All search hits for the needle, newest first, one per content row.
pub open spec fn search_entries(v: StoreView, needle: Seq<char>) -> Seq<LastCopied> {
    search_entries_from(v, needle, 0)
}

/// How many rows a `Recent` page with the given limit and skip holds: the
/// full limit while enough ledger entries remain, the remainder at the end,
/// and none once the skip has passed the ledger.
pub open spec fn recent_count(v: StoreView, limit: usize, skip: usize) -> int {
    if skip >= v.recents.len() {
        0
    } else if v.recents.len() - skip >= limit {
        limit as int
    } else {
        v.recents.len() - skip
    }
}

/// The ledger entry behind row `k` of a `Recent` page with the given skip:
/// the ledger read backwards from its newest entry.
pub open spec fn nth_recent(v: StoreView, skip: usize, k: int) -> LastCopied {
    v.recents[v.recents.len() - 1 - skip - k]
}

/// Touching the ledger preserves the invariant.
proof fn lemma_wf_after_touch(pre: StoreView, post: StoreView, cid: usize, now: usize)
    requires
        wf_view(pre),
        has_content(pre.contents, cid),
        pre.next_recent_id < usize::MAX,
        post == spec_touch(pre, cid, now),
    ensures
        wf_view(post),
{
    match last_entry_index(pre.recents, cid) {
        Some(li) => {
            if post != pre {
                assert(post.recents.len() == pre.recents.len() + 1);
                assert forall|i: int| 0 <= i < post.recents.len() implies has_content(
                    post.contents,
                    (#[trigger] post.recents[i]).row_id,
                ) by {
                    if i < pre.recents.len() {
                        assert(post.recents[i] == pre.recents[i]);
                    }
                }
                assert forall|i: int| 0 <= i < post.contents.len() implies has_entry(
                    post.recents,
                    (#[trigger] post.contents[i]).id,
                ) by {
                    let j = choose|j: int|
                        0 <= j < pre.recents.len() && (#[trigger] pre.recents[j]).row_id
                            == pre.contents[i].id;
                    assert(post.recents[j].row_id == post.contents[i].id);
                }
            }
        },
        None => {},
    }
}

/// Inserting a fresh row with its first ledger entry preserves the invariant.
proof fn lemma_wf_after_insert(pre: StoreView, post: StoreView, now: usize)
    requires
        wf_view(pre),
        pre.next_content_id < usize::MAX,
        pre.next_recent_id < usize::MAX,
        post.contents.len() == pre.contents.len() + 1,
        post.contents.subrange(0, pre.contents.len() as int) == pre.contents,
        valid_record(post.contents.last()),
        post.contents.last().id == pre.next_content_id,
        forall|k: int|
            0 <= k < pre.contents.len() ==> (#[trigger] pre.contents[k]).hash@
                != post.contents.last().hash@,
        post.next_content_id == pre.next_content_id + 1,
        post.recents == pre.recents.push(
            LastCopied {
                id: pre.next_recent_id as usize,
                row_id: pre.next_content_id as usize,
                date: now,
            },
        ),
        post.next_recent_id == pre.next_recent_id + 1,
    ensures
        wf_view(post),
{
    let n = pre.contents.len() as int;
    assert forall|i: int| 0 <= i < n implies post.contents[i] == pre.contents[i] by {
        assert(post.contents.subrange(0, n)[i] == post.contents[i]);
    }
    assert(post.contents[n] == post.contents.last());
    assert forall|i: int| 0 <= i < post.recents.len() implies has_content(
        post.contents,
        (#[trigger] post.recents[i]).row_id,
    ) by {
        if i < pre.recents.len() {
            assert(post.recents[i] == pre.recents[i]);
            let j = choose|j: int|
                0 <= j < pre.contents.len() && (#[trigger] pre.contents[j]).id
                    == pre.recents[i].row_id;
            assert(post.contents[j].id == post.recents[i].row_id);
        } else {
            assert(post.contents[n].id == post.recents[i].row_id);
        }
    }
    assert forall|i: int| 0 <= i < post.contents.len() implies has_entry(
        post.recents,
        (#[trigger] post.contents[i]).id,
    ) by {
        if i < n {
            let j = choose|j: int|
                0 <= j < pre.recents.len() && (#[trigger] pre.recents[j]).row_id
                    == pre.contents[i].id;
            assert(post.recents[j].row_id == post.contents[i].id);
        } else {
            assert(post.recents.last().row_id == post.contents[i].id);
        }
    }
}

/// The storage container: the two tables and the identity counters behind
/// them. All operations work on this one value; persistence, if any, is the
/// surrounding application's concern.
pub struct StorageContainer {
    contents: Vec<CopiedData>,
    recents: Vec<LastCopied>,
    next_content_id: usize,
    next_recent_id: usize,
}

impl View for StorageContainer {
    type V = StoreView;

    closed spec fn view(&self) -> StoreView {
        StoreView {
            contents: self.contents@,
            recents: self.recents@,
            next_content_id: self.next_content_id as int,
            next_recent_id: self.next_recent_id as int,
        }
    }
}

impl StorageContainer {
    /// The container's invariant, stated over its model.
    pub open spec fn wf(&self) -> bool {
        wf_view(self@)
    }

    /// An empty container; identities start at one, as a fresh store's rows
    /// would be numbered.
    pub fn new() -> (s: Self)
        ensures
            s.wf(),
            s@.contents == Seq::<CopiedData>::empty(),
            s@.recents == Seq::<LastCopied>::empty(),
            s@.next_content_id == 1,
            s@.next_recent_id == 1,
    {
        StorageContainer {
            contents: Vec::new(),
            recents: Vec::new(),
            next_content_id: 1,
            next_recent_id: 1,
        }
    }

    /// The stored content rows, for a caller persisting the store.
    pub fn content_rows(&self) -> (r: &Vec<CopiedData>)
        ensures
            r@ == self@.contents,
    {
        &self.contents
    }

    /// The stored ledger entries, for a caller persisting the store.
    pub fn recency_rows(&self) -> (r: &Vec<LastCopied>)
        ensures
            r@ == self@.recents,
    {
        &self.recents
    }

    /// The two identity counters, for a caller persisting the store.
    pub fn next_ids(&self) -> (r: (usize, usize))
        ensures
            r.0 == self@.next_content_id,
            r.1 == self@.next_recent_id,
    {
        (self.next_content_id, self.next_recent_id)
    }

    /// Rebuild a container from rows read back from persistent storage,
    /// accepting them exactly when they satisfy the container's invariant;
    /// malformed stored data is rejected rather than decoded.
    pub fn from_rows(
        contents: Vec<CopiedData>,
        recents: Vec<LastCopied>,
        next_content_id: usize,
        next_recent_id: usize,
    ) -> (r: Option<StorageContainer>)
        ensures
            ({
                let v = StoreView {
                    contents: contents@,
                    recents: recents@,
                    next_content_id: next_content_id as int,
                    next_recent_id: next_recent_id as int,
                };
                match r {
                    Some(s) => wf_view(v) && s@ == v,
                    None => !wf_view(v),
                }
            }),
    {
        let ghost v = StoreView {
            contents: contents@,
            recents: recents@,
            next_content_id: next_content_id as int,
            next_recent_id: next_recent_id as int,
        };
        let n = contents.len();
        let m = recents.len();
        let mut i: usize = 0;
        while i < n
            invariant
                0 <= i <= n,
                n == contents@.len(),
                v == (StoreView {
                    contents: contents@,
                    recents: recents@,
                    next_content_id: next_content_id as int,
                    next_recent_id: next_recent_id as int,
                }),
                forall|k: int|
                    0 <= k < i ==> valid_record(#[trigger] contents@[k]) && contents@[k].id
                        < next_content_id,
            decreases n - i,
        {
            if !record_valid(&contents[i]) {
                proof {
                    assert(!valid_record(v.contents[i as int]));
                }
                return None;
            }
            if contents[i].id >= next_content_id {
                proof {
                    assert(v.contents[i as int].id >= v.next_content_id);
                }
                return None;
            }
            i += 1;
        }
        let mut i: usize = 1;
        while i < n
            invariant
                1 <= i <= n || n == 0,
                n == contents@.len(),
                v == (StoreView {
                    contents: contents@,
                    recents: recents@,
                    next_content_id: next_content_id as int,
                    next_recent_id: next_recent_id as int,
                }),
                forall|a: int, b: int|
                    0 <= a < b < i ==> (#[trigger] contents@[a]).id != (
                    #[trigger] contents@[b]).id,
                forall|a: int, b: int|
                    0 <= a < b < i ==> (#[trigger] contents@[a]).hash@ != (
                    #[trigger] contents@[b]).hash@,
            decreases n - i,
        {
            let mut j: usize = 0;
            while j < i
                invariant
                    0 <= j <= i < n,
                    n == contents@.len(),
                    v == (StoreView {
                        contents: contents@,
                        recents: recents@,
                        next_content_id: next_content_id as int,
                        next_recent_id: next_recent_id as int,
                    }),
                    forall|a: int, b: int|
                        0 <= a < b < i ==> (#[trigger] contents@[a]).id != (
                        #[trigger] contents@[b]).id,
                    forall|a: int, b: int|
                        0 <= a < b < i ==> (#[trigger] contents@[a]).hash@ != (
                        #[trigger] contents@[b]).hash@,
                    forall|a: int|
                        0 <= a < j ==> (#[trigger] contents@[a]).id != contents@[i as int].id
                            && contents@[a].hash@ != contents@[i as int].hash@,
                decreases i - j,
            {
                if contents[j].id == contents[i].id {
                    proof {
                        assert(v.contents[j as int].id == v.contents[i as int].id);
                    }
                    return None;
                }
                if contents[j].hash == contents[i].hash {
                    proof {
                        assert(v.contents[j as int].hash@ == v.contents[i as int].hash@);
                    }
                    return None;
                }
                j += 1;
            }
            i += 1;
        }
        let mut i: usize = 0;
        while i < m
            invariant
                0 <= i <= m,
                m == recents@.len(),
                n == contents@.len(),
                v == (StoreView {
                    contents: contents@,
                    recents: recents@,
                    next_content_id: next_content_id as int,
                    next_recent_id: next_recent_id as int,
                }),
                forall|k: int|
                    0 <= k < i ==> (#[trigger] recents@[k]).id < next_recent_id && has_content(
                        contents@,
                        recents@[k].row_id,
                    ),
                forall|k: int| 0 <= k < i - 1 ==> (#[trigger] recents@[k]).id < recents@[k + 1].id,
            decreases m - i,
        {
            if recents[i].id >= next_recent_id {
                proof {
                    assert(v.recents[i as int].id >= v.next_recent_id);
                }
                return None;
            }
            if i > 0 && recents[i - 1].id >= recents[i].id {
                proof {
                    assert(!(v.recents[i - 1].id < v.recents[i as int].id));
                }
                return None;
            }
            if !vec_has_content(&contents, recents[i].row_id) {
                proof {
                    assert(!has_content(v.contents, v.recents[i as int].row_id));
                }
                return None;
            }
            i += 1;
        }
        let mut i: usize = 0;
        while i < n
            invariant
                0 <= i <= n,
                n == contents@.len(),
                m == recents@.len(),
                v == (StoreView {
                    contents: contents@,
                    recents: recents@,
                    next_content_id: next_content_id as int,
                    next_recent_id: next_recent_id as int,
                }),
                forall|k: int| 0 <= k < i ==> has_entry(recents@, (#[trigger] contents@[k]).id),
            decreases n - i,
        {
            if !vec_has_entry(&recents, contents[i].id) {
                proof {
                    assert(!has_entry(v.recents, v.contents[i as int].id));
                }
                return None;
            }
            i += 1;
        }
        proof {
            assert forall|a: int, b: int| 0 <= a < b < recents@.len() implies (
            #[trigger] recents@[a]).id < (#[trigger] recents@[b]).id by {
                lemma_adjacent_increasing(recents@, a, b);
            }
            assert(wf_view(v));
        }
        Some(StorageContainer { contents, recents, next_content_id, next_recent_id })
    }

    /// Index of the content row carrying the given hash, if any.
    fn find_by_hash(&self, hash: &String) -> (r: Option<usize>)
        ensures
            match r {
                Some(i) => i < self@.contents.len() && index_of_hash(self@.contents, hash@)
                    == Some(i as int),
                None => index_of_hash(self@.contents, hash@) is None,
            },
    {
        let n = self.contents.len();
        let mut i: usize = 0;
        while i < n
            invariant
                0 <= i <= n,
                n == self@.contents.len(),
                index_of_hash(self@.contents, hash@) == index_of_hash_from(
                    self@.contents,
                    hash@,
                    i as int,
                ),
            decreases n - i,
        {
            if self.contents[i].hash == *hash {
                return Some(i);
            }
            i += 1;
        }
        None
    }

    /// Index of the content row with the given identity, if any.
    fn find_content(&self, id: usize) -> (r: Option<usize>)
        ensures
            match r {
                Some(i) => i < self@.contents.len() && index_of_content(self@.contents, id)
                    == Some(i as int),
                None => index_of_content(self@.contents, id) is None,
            },
    {
        let n = self.contents.len();
        let mut i: usize = 0;
        while i < n
            invariant
                0 <= i <= n,
                n == self@.contents.len(),
                index_of_content(self@.contents, id) == index_of_content_from(
                    self@.contents,
                    id,
                    i as int,
                ),
            decreases n - i,
        {
            if self.contents[i].id == id {
                return Some(i);
            }
            i += 1;
        }
        None
    }

    /// Number of ledger entries observed strictly after the given timestamp.
    fn count_newer_than(&self, time: usize) -> (r: usize)
        ensures
            r == count_newer(self@.recents, time as int),
    {
        let n = self.recents.len();
        let mut count: usize = 0;
        let mut i: usize = 0;
        while i < n
            invariant
                0 <= i <= n,
                n == self@.recents.len(),
                count <= i,
                count == count_newer_upto(self@.recents, time as int, i as int),
            decreases n - i,
        {
            if self.recents[i].date > time {
                count += 1;
            }
            i += 1;
        }
        count
    }

    /// Count of ledger entries newer than the given millisecond timestamp;
    /// feeds both the recency-collapse rule and a caller polling for news.
    pub fn count_the_recents_newer_than(&self, time: usize) -> (r: Result<usize, StorageError>)
        ensures
            r matches Ok(c) && c == count_newer(self@.recents, time as int),
    {
        Ok(self.count_newer_than(time))
    }

    /// Sum of the stored text sizes across all content rows, or an overflow
    /// error when the total does not fit the machine word.
    pub fn compute_total_size(&self) -> (r: Result<usize, StorageError>)
        ensures
            total_text_size(self@.contents) <= usize::MAX ==> (r matches Ok(s) && s
                == total_text_size(self@.contents)),
            total_text_size(self@.contents) > usize::MAX ==> r == Err::<usize, StorageError>(
                StorageError::Overflow,
            ),
    {
        let n = self.contents.len();
        let mut acc: usize = 0;
        let mut i: usize = 0;
        while i < n
            invariant
                0 <= i <= n,
                n == self@.contents.len(),
                acc == total_text_size_upto(self@.contents, i as int),
            decreases n - i,
        {
            let sz = match self.contents[i].text_size {
                Some(sz) => sz,
                None => 0,
            };
            if sz > usize::MAX - acc {
                proof {
                    lemma_total_text_size_monotone(
                        self@.contents,
                        i + 1,
                        self@.contents.len() as int,
                    );
                }
                return Err(StorageError::Overflow);
            }
            acc += sz;
            i += 1;
        }
        Ok(acc)
    }

    /// Raw full-resolution image bytes of one content row; a missing row or a
    /// row without image data is a lookup miss, not a failure.
    pub fn get_image(&self, data_id: usize) -> (r: Result<Vec<u8>, StorageError>)
        ensures
            match index_of_content(self@.contents, data_id) {
                Some(ci) => match self@.contents[ci].image_data {
                    Some(img) => r matches Ok(b) && b@ == img@,
                    None => r == Err::<Vec<u8>, StorageError>(StorageError::NotFound),
                },
                None => r == Err::<Vec<u8>, StorageError>(StorageError::NotFound),
            },
    {
        match self.find_content(data_id) {
            Some(ci) => match &self.contents[ci].image_data {
                Some(img) => Ok(copy_bytes(img)),
                None => Err(StorageError::NotFound),
            },
            None => Err(StorageError::NotFound),
        }
    }

    /// Apply the recency-collapse rule for a repeat observation of content
    /// `cid` at time `now`.
    fn touch(&mut self, cid: usize, now: usize)
        requires
            old(self).wf(),
            has_content(old(self)@.contents, cid),
            old(self)@.next_recent_id < usize::MAX,
        ensures
            final(self).wf(),
            final(self)@ == spec_touch(old(self)@, cid, now),
    {
        let ghost pre = self@;
        let mut i: usize = self.recents.len();
        while i > 0
            invariant
                0 <= i <= self@.recents.len(),
                pre == old(self)@,
                self@ == pre,
                wf_view(pre),
                has_content(pre.contents, cid),
                pre.next_recent_id < usize::MAX,
                last_entry_index(self@.recents, cid) == last_entry_before(
                    self@.recents,
                    cid,
                    i as int,
                ),
            decreases i,
        {
            if self.recents[i - 1].row_id == cid {
                let last = self.recents[i - 1];
                let minutes = if now >= last.date {
                    (now - last.date) / 60000
                } else {
                    0
                };
                let newer = self.count_newer_than(last.date);
                if minutes > 60 && newer >= 30 {
                    let entry = LastCopied { id: self.next_recent_id, row_id: cid, date: now };
                    self.recents.push(entry);
                    self.next_recent_id += 1;
                }
                proof {
                    assert(last_entry_index(pre.recents, cid) == Some(i - 1 as int));
                    lemma_wf_after_touch(pre, self@, cid, now);
                }
                return ;
            }
            i -= 1;
        }
        proof {
            // Unreachable: the invariant gives every live content row at
            // least one ledger entry, so the scan cannot run out.
            lemma_last_entry_before_spec(pre.recents, cid, pre.recents.len() as int);
            let k = choose|k: int|
                0 <= k < pre.contents.len() && (#[trigger] pre.contents[k]).id == cid;
            assert(has_entry(pre.recents, pre.contents[k].id));
            let m = choose|m: int|
                0 <= m < pre.recents.len() && (#[trigger] pre.recents[m]).row_id
                    == pre.contents[k].id;
            assert(false);
        }
    }

    /// Ingest a text payload observed at time `now_ms`: drop it silently when
    /// it exceeds the configured text size limit, store it once keyed by its
    /// content hash, and advance the recency ledger under the collapse rule.
    pub fn add_text_at(
        &mut self,
        text_data: String,
        html_data: Option<String>,
        config: &Config,
        now_ms: usize,
    ) -> (r: Result<(), StorageError>)
        requires
            old(self).wf(),
            room_for_ingest(old(self)@),
        ensures
            r is Ok,
            final(self).wf(),
            text_ingest(
                old(self)@,
                final(self)@,
                text_data,
                html_data,
                config.stores.text.max_size,
                now_ms,
            ),
    {
        let ghost pre = self@;
        let len_bytes = text_data.as_str().len();
        if len_bytes as u128 > config.stores.text.max_size as u128 * 1000000u128 {
            return Ok(());
        }
        let hash = hash_bytes(text_data.as_str().as_bytes());
        let ghost h = sha256_hex(encode_utf8(text_data@));
        match self.find_by_hash(&hash) {
            Some(ci) => {
                proof {
                    lemma_index_of_hash_from_spec(pre.contents, h, 0);
                }
                let cid = self.contents[ci].id;
                self.touch(cid, now_ms);
            },
            None => {
                proof {
                    lemma_index_of_hash_from_spec(pre.contents, h, 0);
                }
                let html_size = match &html_data {
                    Some(hd) => Some(hd.as_str().len()),
                    None => None,
                };
                let id = self.next_content_id;
                let rec = CopiedData {
                    id,
                    hash,
                    is_starred: false,
                    type_of: 0,
                    text_size: Some(len_bytes),
                    text_data: Some(text_data),
                    html_size,
                    html_data,
                    image_size: None,
                    image_data: None,
                    image_thumb_size: None,
                    image_thumb_data: None,
                };
                self.contents.push(rec);
                self.next_content_id = id + 1;
                let entry = LastCopied { id: self.next_recent_id, row_id: id, date: now_ms };
                self.recents.push(entry);
                self.next_recent_id += 1;
                proof {
                    assert(self@.contents.subrange(0, pre.contents.len() as int) =~= pre.contents);
                    lemma_wf_after_insert(pre, self@, now_ms);
                }
            },
        }
        Ok(())
    }

    /// Ingest a text payload observed now. The clock is read once; everything
    /// the contract states holds whatever the reading was.
    pub fn add_text(
        &mut self,
        text_data: String,
        html_data: Option<String>,
        config: &Config,
    ) -> (r: Result<(), StorageError>)
        requires
            old(self).wf(),
            room_for_ingest(old(self)@),
        ensures
            r is Ok,
            final(self).wf(),
            exists|now: usize|
                text_ingest(
                    old(self)@,
                    final(self)@,
                    text_data,
                    html_data,
                    config.stores.text.max_size,
                    now,
                ),
    {
        let now = now_millis();
        self.add_text_at(text_data, html_data, config, now)
    }

    /// Ingest an image payload observed at time `now_ms`, with an optional
    /// thumbnail supplied by the capturer; the size gate, dedup and collapse
    /// rules are those of text ingestion, under the image size limit.
    pub fn add_image_at(
        &mut self,
        image_data: Vec<u8>,
        image_thumb_data: Option<Vec<u8>>,
        config: &Config,
        now_ms: usize,
    ) -> (r: Result<(), StorageError>)
        requires
            old(self).wf(),
            room_for_ingest(old(self)@),
        ensures
            r is Ok,
            final(self).wf(),
            image_ingest(
                old(self)@,
                final(self)@,
                image_data,
                image_thumb_data,
                config.stores.image.max_size,
                now_ms,
            ),
    {
        let ghost pre = self@;
        let len_bytes = image_data.len();
        if len_bytes as u128 > config.stores.image.max_size as u128 * 1000000u128 {
            return Ok(());
        }
        let hash = hash_bytes(image_data.as_slice());
        let ghost h = sha256_hex(image_data@);
        match self.find_by_hash(&hash) {
            Some(ci) => {
                proof {
                    lemma_index_of_hash_from_spec(pre.contents, h, 0);
                }
                let cid = self.contents[ci].id;
                self.touch(cid, now_ms);
            },
            None => {
                proof {
                    lemma_index_of_hash_from_spec(pre.contents, h, 0);
                }
                let thumb_size = match &image_thumb_data {
                    Some(t) => Some(t.len()),
                    None => None,
                };
                let id = self.next_content_id;
                let rec = CopiedData {
                    id,
                    hash,
                    is_starred: false,
                    type_of: 1,
                    text_size: None,
                    text_data: None,
                    html_size: None,
                    html_data: None,
                    image_size: Some(len_bytes),
                    image_data: Some(image_data),
                    image_thumb_size: thumb_size,
                    image_thumb_data,
                };
                self.contents.push(rec);
                self.next_content_id = id + 1;
                let entry = LastCopied { id: self.next_recent_id, row_id: id, date: now_ms };
                self.recents.push(entry);
                self.next_recent_id += 1;
                proof {
                    assert(self@.contents.subrange(0, pre.contents.len() as int) =~= pre.contents);
                    lemma_wf_after_insert(pre, self@, now_ms);
                }
            },
        }
        Ok(())
    }

    /// Ingest an image payload observed now. The clock is read once;
    /// everything the contract states holds whatever the reading was.
    pub fn add_image(
        &mut self,
        image_data: Vec<u8>,
        image_thumb_data: Option<Vec<u8>>,
        config: &Config,
    ) -> (r: Result<(), StorageError>)
        requires
            old(self).wf(),
            room_for_ingest(old(self)@),
        ensures
            r is Ok,
            final(self).wf(),
            exists|now: usize|
                image_ingest(
                    old(self)@,
                    final(self)@,
                    image_data,
                    image_thumb_data,
                    config.stores.image.max_size,
                    now,
                ),
    {
        let now = now_millis();
        self.add_image_at(image_data, image_thumb_data, config, now)
    }

    /// Set or clear the favorite flag of one content row; the count of rows
    /// affected is one exactly when the identity exists, and a missing
    /// identity is a no-op, not an error.
    pub fn set_favorite(&mut self, index: usize, value: bool) -> (r: Result<usize, StorageError>)
        requires
            old(self).wf(),
        ensures
            final(self).wf(),
            final(self)@.recents == old(self)@.recents,
            final(self)@.next_content_id == old(self)@.next_content_id,
            final(self)@.next_recent_id == old(self)@.next_recent_id,
            match index_of_content(old(self)@.contents, index) {
                Some(ci) => r == Ok::<usize, StorageError>(1) && final(self)@.contents == old(
                    self,
                )@.contents.update(ci, with_flag(old(self)@.contents[ci], value)),
                None => r == Ok::<usize, StorageError>(0) && final(self)@.contents == old(
                    self,
                )@.contents,
            },
    {
        let ghost pre = self@;
        match self.find_content(index) {
            Some(ci) => {
                self.contents[ci].is_starred = value;
                proof {
                    assert(self@.contents =~= pre.contents.update(
                        ci as int,
                        with_flag(pre.contents[ci as int], value),
                    ));
                    assert forall|i: int| 0 <= i < self@.contents.len() implies has_entry(
                        self@.recents,
                        (#[trigger] self@.contents[i]).id,
                    ) by {
                        assert(self@.contents[i].id == pre.contents[i].id);
                    }
                    assert forall|i: int| 0 <= i < self@.recents.len() implies has_content(
                        self@.contents,
                        (#[trigger] self@.recents[i]).row_id,
                    ) by {
                        let j = choose|j: int|
                            0 <= j < pre.contents.len() && (#[trigger] pre.contents[j]).id
                                == pre.recents[i].row_id;
                        assert(self@.contents[j].id == self@.recents[i].row_id);
                    }
                }
                Ok(1)
            },
            None => Ok(0),
        }
    }

    /// Number of distinct payloads stored.
    pub fn content_count(&self) -> (n: usize)
        ensures
            n == self@.contents.len(),
    {
        self.contents.len()
    }

    /// Number of entries in the recency ledger.
    pub fn recency_count(&self) -> (n: usize)
        ensures
            n == self@.recents.len(),
    {
        self.recents.len()
    }

    /// Both identity counters have room for one more row, as every ingestion
    /// may need; unverified callers test this before ingesting.
    pub fn can_ingest(&self) -> (b: bool)
        ensures
            b == room_for_ingest(self@),
    {
        self.next_content_id < usize::MAX && self.next_recent_id < usize::MAX
    }

    /// Whether some stored payload carries the given content hash.
    pub fn contains_hash(&self, hash: &String) -> (b: bool)
        ensures
            b == (index_of_hash(self@.contents, hash@) is Some),
    {
        match self.find_by_hash(hash) {
            Some(_) => true,
            None => false,
        }
    }

    /// The entry at position `i` is its content's oldest ledger entry.
    fn first_for_content(&self, i: usize) -> (b: bool)
        requires
            i < self@.recents.len(),
        ensures
            b == entry_first_for_content(self@.recents, i as int),
    {
        let rid = self.recents[i].row_id;
        let mut j: usize = 0;
        while j < i
            invariant
                0 <= j <= i,
                i < self@.recents.len(),
                rid == self@.recents[i as int].row_id,
                forall|k: int| 0 <= k < j ==> (#[trigger] self@.recents[k]).row_id != rid,
            decreases i - j,
        {
            if self.recents[j].row_id == rid {
                return false;
            }
            j += 1;
        }
        true
    }

    /// The result row joining ledger entry `eidx` with its content row.
    fn make_row(&self, eidx: usize) -> (row: ReturnedItem)
        requires
            self.wf(),
            eidx < self@.recents.len(),
        ensures
            row_matches(row, self@.recents[eidx as int], self@),
    {
        let entry = self.recents[eidx];
        proof {
            assert(has_content(self@.contents, self@.recents[eidx as int].row_id));
            lemma_index_of_content_from_spec(self@.contents, entry.row_id, 0);
        }
        let ci = self.find_content(entry.row_id).unwrap();
        let c = &self.contents[ci];
        let text_value = match &c.text_data {
            Some(t) => Some(t.clone()),
            None => None,
        };
        let thumb_value = match &c.image_thumb_data {
            Some(b) => Some(copy_bytes(b)),
            None => Some(Vec::new()),
        };
        let value = ReturnedItemType::from_sql(c.type_of as usize, text_value, thumb_value);
        ReturnedItem {
            data_id: c.id,
            value,
            is_favorite: c.is_starred,
            recent_id: entry.id,
            timestamp: entry.date,
        }
    }

    /// Run one query mode over the ledger. Every mode reads the ledger newest
    /// entry first and joins each selected entry with its content row:
    /// `Recent` pages through all entries with a limit and a skip, and
    /// returns a short page exactly when it reaches past the ledger's last
    /// entry; `Favorites`
    /// selects the entries of favorite content, unbounded; `Search` selects
    /// the text rows containing the query as a literal substring, each
    /// represented once, by its oldest entry.
    pub fn query(&self, value: StorageQuery) -> (r: Result<Vec<ReturnedItem>, StorageError>)
        requires
            self.wf(),
        ensures
            match value {
                StorageQuery::Recent { limit, skip } => (r matches Ok(rows) && rows@.len()
                    == recent_count(self@, limit, skip) && forall|k: int|
                    0 <= k < rows@.len() ==> row_matches(
                        #[trigger] rows@[k],
                        nth_recent(self@, skip, k),
                        self@,
                    )),
                StorageQuery::Favorites => (r matches Ok(rows) && rows@.len() == fav_entries(
                    self@,
                ).len() && forall|k: int|
                    0 <= k < rows@.len() ==> row_matches(
                        #[trigger] rows@[k],
                        fav_entries(self@)[k],
                        self@,
                    )),
                StorageQuery::Search { value: needle } => (r matches Ok(rows) && rows@.len()
                    == search_entries(self@, needle@).len() && forall|k: int|
                    0 <= k < rows@.len() ==> row_matches(
                        #[trigger] rows@[k],
                        search_entries(self@, needle@)[k],
                        self@,
                    )),
            },
    {
        match value {
            StorageQuery::Recent { limit, skip } => {
                let total = self.recents.len();
                let mut rows: Vec<ReturnedItem> = Vec::new();
                if skip >= total {
                    return Ok(rows);
                }
                let avail = total - skip;
                let count = if limit <= avail {
                    limit
                } else {
                    avail
                };
                let mut k: usize = 0;
                while k < count
                    invariant
                        0 <= k <= count,
                        self.wf(),
                        total == self@.recents.len(),
                        skip < total,
                        count == recent_count(self@, limit, skip),
                        count <= total - skip,
                        rows@.len() == k,
                        forall|kk: int|
                            0 <= kk < k ==> row_matches(
                                #[trigger] rows@[kk],
                                nth_recent(self@, skip, kk),
                                self@,
                            ),
                    decreases count - k,
                {
                    let eidx = total - 1 - skip - k;
                    let row = self.make_row(eidx);
                    rows.push(row);
                    k += 1;
                }
                Ok(rows)
            },
            StorageQuery::Favorites => {
                let mut rows: Vec<ReturnedItem> = Vec::new();
                let mut i: usize = self.recents.len();
                while i > 0
                    invariant
                        0 <= i <= self@.recents.len(),
                        self.wf(),
                        rows@.len() == fav_entries_from(self@, i as int).len(),
                        forall|kk: int|
                            0 <= kk < rows@.len() ==> row_matches(
                                #[trigger] rows@[kk],
                                fav_entries_from(self@, i as int)[kk],
                                self@,
                            ),
                    decreases i,
                {
                    let idx = i - 1;
                    let e = self.recents[idx];
                    proof {
                        assert(has_content(self@.contents, self@.recents[idx as int].row_id));
                        lemma_index_of_content_from_spec(self@.contents, e.row_id, 0);
                    }
                    let ci = self.find_content(e.row_id).unwrap();
                    if self.contents[ci].is_starred {
                        let row = self.make_row(idx);
                        rows.push(row);
                        proof {
                            assert(fav_entries_from(self@, idx as int) =~= fav_entries_from(
                                self@,
                                i as int,
                            ).push(e));
                        }
                    } else {
                        proof {
                            assert(fav_entries_from(self@, idx as int) =~= fav_entries_from(
                                self@,
                                i as int,
                            ));
                        }
                    }
                    i = idx;
                }
                Ok(rows)
            },
            StorageQuery::Search { value: needle } => {
                let mut rows: Vec<ReturnedItem> = Vec::new();
                let mut i: usize = self.recents.len();
                while i > 0
                    invariant
                        0 <= i <= self@.recents.len(),
                        self.wf(),
                        rows@.len() == search_entries_from(self@, needle@, i as int).len(),
                        forall|kk: int|
                            0 <= kk < rows@.len() ==> row_matches(
                                #[trigger] rows@[kk],
                                search_entries_from(self@, needle@, i as int)[kk],
                                self@,
                            ),
                    decreases i,
                {
                    let idx = i - 1;
                    let e = self.recents[idx];
                    proof {
                        assert(has_content(self@.contents, self@.recents[idx as int].row_id));
                        lemma_index_of_content_from_spec(self@.contents, e.row_id, 0);
                    }
                    let ci = self.find_content(e.row_id).unwrap();
                    let matched = if self.contents[ci].type_of == 0 {
                        match &self.contents[ci].text_data {
                            Some(t) => contains_substring(t.as_str(), needle.as_str()),
                            None => false,
                        }
                    } else {
                        false
                    };
                    let qualifies = matched && self.first_for_content(idx);
                    if qualifies {
                        let row = self.make_row(idx);
                        rows.push(row);
                        proof {
                            assert(search_entries_from(self@, needle@, idx as int)
                                =~= search_entries_from(self@, needle@, i as int).push(e));
                        }
                    } else {
                        proof {
                            assert(search_entries_from(self@, needle@, idx as int)
                                =~= search_entries_from(self@, needle@, i as int));
                        }
                    }
                    i = idx;
                }
                Ok(rows)
            },
        }
    }

    /// Remove one content row by identity; exactly when a row was removed,
    /// every ledger entry referencing it is removed too. The result counts
    /// the removed rows and entries together; a missing identity is a no-op.
    pub fn delete(&mut self, index: usize) -> (r: Result<usize, StorageError>)
        requires
            old(self).wf(),
            old(self)@.recents.len() < usize::MAX,
        ensures
            final(self).wf(),
            final(self)@.next_content_id == old(self)@.next_content_id,
            final(self)@.next_recent_id == old(self)@.next_recent_id,
            match index_of_content(old(self)@.contents, index) {
                Some(ci) => {
                    &&& final(self)@.contents == old(self)@.contents.remove(ci)
                    &&& final(self)@.recents == without_content(old(self)@.recents, index)
                    &&& r == Ok::<usize, StorageError>(
                        (1 + count_entries(old(self)@.recents, index)) as usize,
                    )
                },
                None => r == Ok::<usize, StorageError>(0) && final(self)@.contents == old(
                    self,
                )@.contents && final(self)@.recents == old(self)@.recents,
            },
    {
        let ghost pre = self@;
        match self.find_content(index) {
            Some(ci) => {
                proof {
                    lemma_index_of_content_from_spec(pre.contents, index, 0);
                    pre.contents.remove_ensures(ci as int);
                }
                self.contents.remove(ci);
                let n = self.recents.len();
                let mut kept: Vec<LastCopied> = Vec::new();
                let mut i: usize = 0;
                while i < n
                    invariant
                        0 <= i <= n,
                        pre == old(self)@,
                        n == self@.recents.len(),
                        self@.recents == pre.recents,
                        self@.contents == pre.contents.remove(ci as int),
                        kept@ == without_upto(pre.recents, index, i as int),
                        kept@.len() <= i,
                    decreases n - i,
                {
                    let e = self.recents[i];
                    if e.row_id != index {
                        kept.push(e);
                        proof {
                            assert(kept@ =~= without_upto(pre.recents, index, i + 1));
                        }
                    } else {
                        proof {
                            assert(kept@ =~= without_upto(pre.recents, index, i + 1));
                        }
                    }
                    i += 1;
                }
                let deleted = n - kept.len();
                self.recents = kept;
                proof {
                    lemma_without_props(pre.recents, index, pre.recents.len() as int);
                    lemma_wf_after_delete(pre, self@, index, ci as int);
                }
                Ok(1 + deleted)
            },
            None => Ok(0),
        }
    }

    /// Remove every content row and every ledger entry; the result counts
    /// both. Identity counters keep going, so identities are never reused.
    pub fn clear_database(&mut self) -> (r: Result<usize, StorageError>)
        requires
            old(self).wf(),
            old(self)@.contents.len() + old(self)@.recents.len() <= usize::MAX,
        ensures
            final(self).wf(),
            final(self)@.contents == Seq::<CopiedData>::empty(),
            final(self)@.recents == Seq::<LastCopied>::empty(),
            final(self)@.next_content_id == old(self)@.next_content_id,
            final(self)@.next_recent_id == old(self)@.next_recent_id,
            r == Ok::<usize, StorageError>(
                (old(self)@.contents.len() + old(self)@.recents.len()) as usize,
            ),
    {
        let removed = self.contents.len() + self.recents.len();
        self.contents.clear();
        self.recents.clear();
        Ok(removed)
    }
}

/// Deleting one content row and the ledger entries referencing it preserves
/// the invariant.
proof fn lemma_wf_after_delete(pre: StoreView, post: StoreView, index: usize, ci: int)
    requires
        wf_view(pre),
        0 <= ci < pre.contents.len(),
        pre.contents[ci].id == index,
        post.contents == pre.contents.remove(ci),
        post.recents == without_content(pre.recents, index),
        post.next_content_id == pre.next_content_id,
        post.next_recent_id == pre.next_recent_id,
    ensures
        wf_view(post),
{
    pre.contents.remove_ensures(ci);
    lemma_without_props(pre.recents, index, pre.recents.len() as int);
    let old_of = |k: int| if k < ci { k } else { k + 1 };
    assert forall|k: int| 0 <= k < post.contents.len() implies post.contents[k]
        == pre.contents[old_of(k)] by {}
    assert forall|k: int| 0 <= k < post.recents.len() implies (#[trigger] post.recents[k]).id
        < post.next_recent_id by {
        let j = choose|j: int| 0 <= j < pre.recents.len() && post.recents[k] == #[trigger] pre.recents[j];
    }
    assert forall|k: int| 0 <= k < post.recents.len() implies has_content(
        post.contents,
        (#[trigger] post.recents[k]).row_id,
    ) by {
        let j = choose|j: int| 0 <= j < pre.recents.len() && post.recents[k] == #[trigger] pre.recents[j];
        assert(has_content(pre.contents, pre.recents[j].row_id));
        let jc = choose|jc: int|
            0 <= jc < pre.contents.len() && (#[trigger] pre.contents[jc]).id
                == pre.recents[j].row_id;
        assert(post.recents[k].row_id != index);
        assert(jc != ci);
        if jc < ci {
            assert(post.contents[jc].id == post.recents[k].row_id);
        } else {
            assert(post.contents[jc - 1].id == post.recents[k].row_id);
        }
    }
    assert forall|k: int| 0 <= k < post.contents.len() implies has_entry(
        post.recents,
        (#[trigger] post.contents[k]).id,
    ) by {
        let ko = old_of(k);
        assert(post.contents[k] == pre.contents[ko]);
        assert(has_entry(pre.recents, pre.contents[ko].id));
        let j = choose|j: int|
            0 <= j < pre.recents.len() && (#[trigger] pre.recents[j]).row_id
                == pre.contents[ko].id;
        if ko < ci {
            assert(pre.contents[ko].id != pre.contents[ci].id);
        } else {
            assert(pre.contents[ci].id != pre.contents[ko].id);
        }
        assert(pre.recents[j].row_id != index);
        assert(without_content(pre.recents, index).contains(pre.recents[j]));
        let m = choose|m: int|
            0 <= m < post.recents.len() && post.recents[m] == pre.recents[j];
        assert(post.recents[m].row_id == post.contents[k].id);
    }
}

impl ReturnedItemType {
    /// Decode the kind tag and its payload columns as read back from a stored
    /// row: tag zero is text, tag one is a thumbnail. The tag and its payload
    /// column are written together, so a tag without its payload, or an
    /// unknown tag, is a programming-invariant violation that callers rule
    /// out rather than handle.
    pub fn from_sql(type_of: usize, text_value: Option<String>, thumb_value: Option<Vec<u8>>) -> (r:
        Self)
        requires
            type_of == 0 || type_of == 1,
            type_of == 0 ==> text_value is Some,
            type_of == 1 ==> thumb_value is Some,
        ensures
            type_of == 0 ==> r == ReturnedItemType::Text(text_value.unwrap()),
            type_of == 1 ==> r == ReturnedItemType::Thumb(thumb_value.unwrap()),
    {
        if type_of == 0 {
            ReturnedItemType::Text(text_value.unwrap())
        } else {
            ReturnedItemType::Thumb(thumb_value.unwrap())
        }
    }
}

/// Strictly increasing adjacent identities make every earlier entry's
/// identity smaller than every later one's.
proof fn lemma_adjacent_increasing(rs: Seq<LastCopied>, i: int, j: int)
    requires
        forall|k: int| 0 <= k < rs.len() - 1 ==> (#[trigger] rs[k]).id < rs[k + 1].id,
        0 <= i < j < rs.len(),
    ensures
        rs[i].id < rs[j].id,
    decreases j - i,
{
    if i + 1 < j {
        lemma_adjacent_increasing(rs, i + 1, j);
    }
}

/// One content row is internally coherent.
fn record_valid(c: &CopiedData) -> (b: bool)
    ensures
        b == valid_record(*c),
{
    if c.type_of == 0 {
        let text_ok = match (&c.text_data, &c.text_size) {
            (Some(t), Some(sz)) => *sz == t.as_str().len(),
            _ => false,
        };
        let html_ok = match (&c.html_data, &c.html_size) {
            (Some(h), Some(sz)) => *sz == h.as_str().len(),
            (None, None) => true,
            _ => false,
        };
        text_ok && html_ok && c.image_size.is_none() && c.image_data.is_none()
            && c.image_thumb_size.is_none() && c.image_thumb_data.is_none()
    } else if c.type_of == 1 {
        let image_ok = match (&c.image_data, &c.image_size) {
            (Some(d), Some(sz)) => *sz == d.len(),
            _ => false,
        };
        let thumb_ok = match (&c.image_thumb_data, &c.image_thumb_size) {
            (Some(d), Some(sz)) => *sz == d.len(),
            (None, None) => true,
            _ => false,
        };
        image_ok && thumb_ok && c.text_size.is_none() && c.text_data.is_none()
            && c.html_size.is_none() && c.html_data.is_none()
    } else {
        false
    }
}

/// Some row of the vector carries this content identity.
fn vec_has_content(cs: &Vec<CopiedData>, id: usize) -> (b: bool)
    ensures
        b == has_content(cs@, id),
{
    let n = cs.len();
    let mut i: usize = 0;
    while i < n
        invariant
            0 <= i <= n,
            n == cs@.len(),
            forall|k: int| 0 <= k < i ==> (#[trigger] cs@[k]).id != id,
        decreases n - i,
    {
        if cs[i].id == id {
            return true;
        }
        i += 1;
    }
    false
}

/// Some entry of the vector references this content identity.
fn vec_has_entry(rs: &Vec<LastCopied>, id: usize) -> (b: bool)
    ensures
        b == has_entry(rs@, id),
{
    let n = rs.len();
    let mut i: usize = 0;
    while i < n
        invariant
            0 <= i <= n,
            n == rs@.len(),
            forall|k: int| 0 <= k < i ==> (#[trigger] rs@[k]).row_id != id,
        decreases n - i,
    {
        if rs[i].row_id == id {
            return true;
        }
        i += 1;
    }
    false
}

/// A fresh copy of a byte vector.
fn copy_bytes(src: &Vec<u8>) -> (r: Vec<u8>)
    ensures
        r@ == src@,
{
    let n = src.len();
    let mut out: Vec<u8> = Vec::new();
    let mut i: usize = 0;
    while i < n
        invariant
            0 <= i <= n,
            n == src@.len(),
            out@ == src@.subrange(0, i as int),
        decreases n - i,
    {
        out.push(src[i]);
        proof {
            assert(out@ =~= src@.subrange(0, i + 1));
        }
        i += 1;
    }
    proof {
        assert(src@.subrange(0, n as int) =~= src@);
    }
    out
}

} // verus!
