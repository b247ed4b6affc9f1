//! Laws of the storage container, stated over its model and proved from the
//! ingestion, deletion and query relations: deduplication, hash-resolution
//! stability, the recency throttle, pagination arithmetic, cascade deletion,
//! the oversize gate, search membership, and favorite-flag isolation.

use vstd::prelude::*;
use vstd::utf8::encode_utf8;

use crate::hashing::sha256_hex;
use crate::store::CopiedData;
use crate::store::LastCopied;
use crate::store::StoreView;
use crate::store::count_entries;
use crate::store::count_newer;
use crate::store::entry_is_fav;
use crate::store::entry_first_for_content;
use crate::store::entry_matches_search;
use crate::store::fav_entries_from;
use crate::store::has_content;
use crate::store::index_of_content;
use crate::store::index_of_content_from;
use crate::store::image_ingest;
use crate::store::index_of_hash;
use crate::store::index_of_hash_from;
use crate::store::last_entry_index;
use crate::store::lemma_index_of_content_from_spec;
use crate::store::lemma_index_of_hash_from_spec;
use crate::store::lemma_without_props;
use crate::store::nth_recent;
use crate::store::recent_count;
use crate::store::search_entries;
use crate::store::search_entries_from;
use crate::store::spec_touch;
use crate::store::text_ingest;
use crate::store::utf8_len;
use crate::store::wf_view;
use crate::store::with_flag;
use crate::store::without_content;

verus! {

/// The first index carrying hash `h` is `m` when everything before `m` does
/// not carry it.
proof fn lemma_index_of_hash_is(cs: Seq<CopiedData>, h: Seq<char>, m: int, j: int)
    requires
        0 <= j <= m < cs.len(),
        cs[m].hash@ == h,
        forall|k: int| j <= k < m ==> (#[trigger] cs[k]).hash@ != h,
    ensures
        index_of_hash_from(cs, h, j) == Some(m),
    decreases m - j,
{
    if j < m {
        lemma_index_of_hash_is(cs, h, m, j + 1);
    }
}

/// One ingestion grows each table by at most one row: a law behind the
/// recency throttle, holding whatever the clock read.
pub proof fn lemma_ingest_appends_at_most_one(
    pre: StoreView,
    post: StoreView,
    text: String,
    html: Option<String>,
    max_mb: usize,
    now: usize,
)
    requires
        text_ingest(pre, post, text, html, max_mb, now),
    ensures
        post.recents.len() <= pre.recents.len() + 1,
        post.contents.len() <= pre.contents.len() + 1,
{
}

/// Deduplication: re-ingesting a payload that was just ingested never adds a
/// content row, whatever the two clock readings and ledger effects were, so
/// the stored payloads and their total size stay as after the first call.
pub proof fn lemma_dedup(
    v1: StoreView,
    v2: StoreView,
    v3: StoreView,
    text: String,
    html1: Option<String>,
    html2: Option<String>,
    max_mb: usize,
    now1: usize,
    now2: usize,
)
    requires
        text_ingest(v1, v2, text, html1, max_mb, now1),
        text_ingest(v2, v3, text, html2, max_mb, now2),
    ensures
        v3.contents == v2.contents,
{
    if utf8_len(text@) <= max_mb * 1000000 {
        let h = sha256_hex(encode_utf8(text@));
        match index_of_hash(v1.contents, h) {
            Some(ci) => {
                assert(v2.contents == v1.contents);
            },
            None => {
                lemma_index_of_hash_from_spec(v1.contents, h, 0);
                assert(v2.contents[v1.contents.len() as int].hash@ == h);
                assert forall|k: int| 0 <= k < v1.contents.len() implies (
                #[trigger] v2.contents[k]).hash@ != h by {
                    assert(v2.contents.subrange(0, v1.contents.len() as int)[k] == v2.contents[k]);
                }
                lemma_index_of_hash_is(v2.contents, h, v1.contents.len() as int, 0);
            },
        }
    }
}

/// Hash stability: once a payload's hash resolves to a content row, any
/// further ingestion of byte-identical payload resolves to the same row, with
/// the same identity.
pub proof fn lemma_hash_stability(
    pre: StoreView,
    post: StoreView,
    text: String,
    html: Option<String>,
    max_mb: usize,
    now: usize,
)
    requires
        text_ingest(pre, post, text, html, max_mb, now),
    ensures
        match index_of_hash(pre.contents, sha256_hex(encode_utf8(text@))) {
            Some(ci) => index_of_hash(post.contents, sha256_hex(encode_utf8(text@))) == Some(ci)
                && post.contents[ci].id == pre.contents[ci].id,
            None => utf8_len(text@) <= max_mb * 1000000 ==> (index_of_hash(
                post.contents,
                sha256_hex(encode_utf8(text@)),
            ) == Some(pre.contents.len() as int) && post.contents[pre.contents.len() as int].id
                == pre.next_content_id),
        },
{
    let h = sha256_hex(encode_utf8(text@));
    if utf8_len(text@) <= max_mb * 1000000 {
        match index_of_hash(pre.contents, h) {
            Some(ci) => {
                assert(post.contents == pre.contents);
            },
            None => {
                lemma_index_of_hash_from_spec(pre.contents, h, 0);
                assert forall|k: int| 0 <= k < pre.contents.len() implies (
                #[trigger] post.contents[k]).hash@ != h by {
                    assert(post.contents.subrange(0, pre.contents.len() as int)[k]
                        == post.contents[k]);
                }
                lemma_index_of_hash_is(post.contents, h, pre.contents.len() as int, 0);
            },
        }
    }
}

/// Deduplication for image payloads: re-ingesting bytes that were just
/// ingested never adds a content row.
pub proof fn lemma_dedup_image(
    v1: StoreView,
    v2: StoreView,
    v3: StoreView,
    image: Vec<u8>,
    thumb1: Option<Vec<u8>>,
    thumb2: Option<Vec<u8>>,
    max_mb: usize,
    now1: usize,
    now2: usize,
)
    requires
        image_ingest(v1, v2, image, thumb1, max_mb, now1),
        image_ingest(v2, v3, image, thumb2, max_mb, now2),
    ensures
        v3.contents == v2.contents,
{
    if image@.len() <= max_mb * 1000000 {
        let h = sha256_hex(image@);
        match index_of_hash(v1.contents, h) {
            Some(ci) => {
                assert(v2.contents == v1.contents);
            },
            None => {
                lemma_index_of_hash_from_spec(v1.contents, h, 0);
                assert(v2.contents[v1.contents.len() as int].hash@ == h);
                assert forall|k: int| 0 <= k < v1.contents.len() implies (
                #[trigger] v2.contents[k]).hash@ != h by {
                    assert(v2.contents.subrange(0, v1.contents.len() as int)[k] == v2.contents[k]);
                }
                lemma_index_of_hash_is(v2.contents, h, v1.contents.len() as int, 0);
            },
        }
    }
}

/// Hash stability for image payloads: once the bytes' hash resolves to a
/// content row, re-ingesting them resolves to the same row and identity.
pub proof fn lemma_hash_stability_image(
    pre: StoreView,
    post: StoreView,
    image: Vec<u8>,
    thumb: Option<Vec<u8>>,
    max_mb: usize,
    now: usize,
    ci: int,
)
    requires
        image_ingest(pre, post, image, thumb, max_mb, now),
        index_of_hash(pre.contents, sha256_hex(image@)) == Some(ci),
    ensures
        index_of_hash(post.contents, sha256_hex(image@)) == Some(ci),
        post.contents[ci].id == pre.contents[ci].id,
{
    if image@.len() <= max_mb * 1000000 {
        assert(post.contents == pre.contents);
    }
}

/// Oversize drop: a payload whose stored byte length exceeds the configured
/// megabyte limit leaves the whole store unchanged, and in particular the
/// total stored size.
pub proof fn lemma_oversize_drop(
    pre: StoreView,
    post: StoreView,
    text: String,
    html: Option<String>,
    max_mb: usize,
    now: usize,
)
    requires
        text_ingest(pre, post, text, html, max_mb, now),
        utf8_len(text@) > max_mb * 1000000,
    ensures
        post == pre,
{
}

/// Pagination termination: a `Recent` page is shorter than its limit exactly
/// when it reaches the end of the ledger, that is, when the skip plus the
/// returned count equals the ledger's size; and row `k` of the page reads the
/// ledger at position `len - 1 - skip - k`, so pages whose skips advance by
/// the returned counts tile the ledger without gap or overlap. The one input
/// where the equivalence does not hold is excluded: a page that fills its
/// limit and exhausts the ledger at the same stroke, where the skip plus the
/// limit equals the ledger's size.
pub proof fn lemma_pagination(v: StoreView, limit: usize, skip: usize)
    requires
        skip <= v.recents.len(),
        skip + limit != v.recents.len(),
    ensures
        (recent_count(v, limit, skip) < limit) <==> (skip + recent_count(v, limit, skip)
            == v.recents.len()),
        forall|k: int|
            0 <= k < recent_count(v, limit, skip) ==> #[trigger] nth_recent(v, skip, k)
                == v.recents[v.recents.len() - 1 - skip - k],
{
}

/// The ledger's timestamps never decrease along identity order.
pub open spec fn dates_ordered(rs: Seq<LastCopied>) -> bool {
    forall|i: int, j: int|
        0 <= i < j < rs.len() ==> (#[trigger] rs[i]).date <= (#[trigger] rs[j]).date
}

/// Recency order stays consistent with observation time: an ingestion whose
/// clock reading lies at or after every stored observation keeps the ledger's
/// timestamps nondecreasing in identity order — the ledger is never reordered,
/// only appended to.
pub proof fn lemma_ledger_time_order(
    pre: StoreView,
    post: StoreView,
    text: String,
    html: Option<String>,
    max_mb: usize,
    now: usize,
)
    requires
        text_ingest(pre, post, text, html, max_mb, now),
        dates_ordered(pre.recents),
        forall|i: int| 0 <= i < pre.recents.len() ==> (#[trigger] pre.recents[i]).date <= now,
    ensures
        dates_ordered(post.recents),
{
    if post.recents != pre.recents {
        assert(post.recents.len() == pre.recents.len() + 1);
        assert forall|i: int, j: int| 0 <= i < j < post.recents.len() implies (
        #[trigger] post.recents[i]).date <= (#[trigger] post.recents[j]).date by {
            if j < pre.recents.len() {
                assert(post.recents[i] == pre.recents[i]);
                assert(post.recents[j] == pre.recents[j]);
            } else {
                assert(post.recents[i] == pre.recents[i]);
                assert(post.recents[j].date == now);
            }
        }
    }
}

/// The recency throttle, negative direction: a repeat of stored content whose
/// newest entry is at most sixty minutes old, or which fewer than thirty
/// other observations have passed since, leaves the whole store unchanged.
pub proof fn lemma_throttle_no_bump(
    pre: StoreView,
    post: StoreView,
    text: String,
    html: Option<String>,
    max_mb: usize,
    now: usize,
    ci: int,
    li: int,
)
    requires
        utf8_len(text@) <= max_mb * 1000000,
        index_of_hash(pre.contents, sha256_hex(encode_utf8(text@))) == Some(ci),
        last_entry_index(pre.recents, pre.contents[ci].id) == Some(li),
        0 <= li < pre.recents.len(),
        (now < pre.recents[li].date || (now - pre.recents[li].date) / 60000 <= 60) || count_newer(
            pre.recents,
            pre.recents[li].date as int,
        ) < 30,
        text_ingest(pre, post, text, html, max_mb, now),
    ensures
        post == pre,
{
}

/// The recency throttle, positive direction: a repeat of stored content more
/// than sixty whole minutes after its newest entry, with at least thirty
/// other observations since, appends exactly one entry, dated now.
pub proof fn lemma_throttle_bump(
    pre: StoreView,
    post: StoreView,
    text: String,
    html: Option<String>,
    max_mb: usize,
    now: usize,
    ci: int,
    li: int,
)
    requires
        utf8_len(text@) <= max_mb * 1000000,
        index_of_hash(pre.contents, sha256_hex(encode_utf8(text@))) == Some(ci),
        last_entry_index(pre.recents, pre.contents[ci].id) == Some(li),
        0 <= li < pre.recents.len(),
        now >= pre.recents[li].date,
        (now - pre.recents[li].date) / 60000 > 60,
        count_newer(pre.recents, pre.recents[li].date as int) >= 30,
        text_ingest(pre, post, text, html, max_mb, now),
    ensures
        post.contents == pre.contents,
        post.recents == pre.recents.push(
            LastCopied {
                id: pre.next_recent_id as usize,
                row_id: pre.contents[ci].id,
                date: now,
            },
        ),
        post.next_recent_id == pre.next_recent_id + 1,
{
}

/// The recency throttle across two calls: ingesting the same payload twice,
/// the second time at most sixty minutes after the first, appends at most one
/// ledger entry in total — whichever of the two calls appended it.
pub proof fn lemma_throttle_within(
    pre: StoreView,
    mid: StoreView,
    post: StoreView,
    text: String,
    html1: Option<String>,
    html2: Option<String>,
    max_mb: usize,
    now1: usize,
    now2: usize,
)
    requires
        wf_view(pre),
        text_ingest(pre, mid, text, html1, max_mb, now1),
        text_ingest(mid, post, text, html2, max_mb, now2),
        now1 <= now2,
        now2 - now1 <= 3600000,
    ensures
        post.recents.len() <= pre.recents.len() + 1,
{
    lemma_ingest_appends_at_most_one(pre, mid, text, html1, max_mb, now1);
    lemma_ingest_appends_at_most_one(mid, post, text, html2, max_mb, now2);
    if mid.recents.len() != pre.recents.len() {
        // The first call appended an entry dated `now1`; it is the newest
        // entry of the content row that carries the payload's hash.
        let h = sha256_hex(encode_utf8(text@));
        assert(utf8_len(text@) <= max_mb * 1000000);
        let ghost cid = match index_of_hash(pre.contents, h) {
            Some(ci) => pre.contents[ci].id,
            None => (pre.next_content_id as usize),
        };
        let ci2 = match index_of_hash(pre.contents, h) {
            Some(ci) => ci,
            None => pre.contents.len() as int,
        };
        if index_of_hash(pre.contents, h) is None {
            lemma_index_of_hash_from_spec(pre.contents, h, 0);
            assert(mid.contents[pre.contents.len() as int].hash@ == h);
            assert forall|k: int| 0 <= k < pre.contents.len() implies (
            #[trigger] mid.contents[k]).hash@ != h by {
                assert(mid.contents.subrange(0, pre.contents.len() as int)[k] == mid.contents[k]);
            }
            lemma_index_of_hash_is(mid.contents, h, pre.contents.len() as int, 0);
            assert(wf_view(pre));
            assert(mid.contents[ci2].id == cid);
        }
        assert(index_of_hash(mid.contents, h) == Some(ci2));
        assert(mid.contents[ci2].id == cid);
        assert(mid.recents.len() > 0);
        assert(mid.recents.last().row_id == cid);
        assert(mid.recents.last().date == now1);
        assert(post == spec_touch(mid, cid, now2));
        assert(last_entry_index(mid.recents, cid) == Some(mid.recents.len() - 1));
        assert((now2 - now1) / 60000 <= 60) by {
            vstd::arithmetic::div_mod::lemma_div_is_ordered((now2 - now1) as int, 3600000, 60000);
        }
        assert(post == mid);
    }
}

/// Cascade delete: removing a content row removes exactly the ledger entries
/// that referenced it, the remaining entries reference other rows, the
/// identity is gone from the content store, and no later `Recent` page can
/// carry it.
pub proof fn lemma_cascade_delete(pre: StoreView, post: StoreView, id: usize, ci: int)
    requires
        wf_view(pre),
        index_of_content(pre.contents, id) == Some(ci),
        post.contents == pre.contents.remove(ci),
        post.recents == without_content(pre.recents, id),
    ensures
        post.recents.len() + count_entries(pre.recents, id) == pre.recents.len(),
        forall|k: int| 0 <= k < post.recents.len() ==> (#[trigger] post.recents[k]).row_id != id,
        !has_content(post.contents, id),
        forall|limit: usize, skip: usize, k: int|
            #![trigger recent_count(post, limit, skip), nth_recent(post, skip, k)]
            0 <= k < recent_count(post, limit, skip) ==> nth_recent(post, skip, k).row_id != id,
{
    lemma_index_of_content_from_spec(pre.contents, id, 0);
    lemma_without_props(pre.recents, id, pre.recents.len() as int);
    pre.contents.remove_ensures(ci);
    assert forall|j: int| 0 <= j < post.contents.len() implies (#[trigger] post.contents[j]).id
        != id by {
        if j < ci {
            assert(pre.contents[j].id != pre.contents[ci].id);
        } else {
            assert(pre.contents[ci].id != pre.contents[j + 1].id);
        }
    }
    assert forall|limit: usize, skip: usize, k: int|
        #![trigger recent_count(post, limit, skip), nth_recent(post, skip, k)]
        0 <= k < recent_count(post, limit, skip) implies nth_recent(post, skip, k).row_id != id by {
        assert(0 <= post.recents.len() - 1 - skip - k < post.recents.len());
    }
}

/// Every search hit is genuine, and nothing genuine is missed: each selected
/// entry's content is text containing the needle and is that content's oldest
/// entry, and every such entry of the ledger is selected.
pub proof fn lemma_search_membership(v: StoreView, needle: Seq<char>, i: int)
    requires
        0 <= i <= v.recents.len(),
    ensures
        forall|k: int|
            0 <= k < search_entries_from(v, needle, i).len() ==> entry_matches_search(
                v,
                #[trigger] search_entries_from(v, needle, i)[k],
                needle,
            ),
        forall|j: int|
            i <= j < v.recents.len() && entry_first_for_content(v.recents, j)
                && entry_matches_search(v, #[trigger] v.recents[j], needle)
                ==> search_entries_from(v, needle, i).contains(v.recents[j]),
    decreases v.recents.len() - i,
{
    if i < v.recents.len() {
        lemma_search_membership(v, needle, i + 1);
        let rest = search_entries_from(v, needle, i + 1);
        let cur = search_entries_from(v, needle, i);
        if entry_first_for_content(v.recents, i) && entry_matches_search(
            v,
            v.recents[i],
            needle,
        ) {
            assert(cur =~= rest.push(v.recents[i]));
            assert forall|j: int|
                i <= j < v.recents.len() && entry_first_for_content(v.recents, j)
                    && entry_matches_search(v, #[trigger] v.recents[j], needle) implies cur.contains(
                v.recents[j],
            ) by {
                if j == i {
                    assert(cur[cur.len() - 1] == v.recents[i]);
                } else {
                    let m = choose|m: int| 0 <= m < rest.len() && rest[m] == v.recents[j];
                    assert(cur[m] == v.recents[j]);
                }
            }
        } else {
            assert(cur =~= rest);
            assert forall|j: int|
                i <= j < v.recents.len() && entry_first_for_content(v.recents, j)
                    && entry_matches_search(v, #[trigger] v.recents[j], needle) implies cur.contains(
                v.recents[j],
            ) by {
                assert(j != i);
                let m = choose|m: int| 0 <= m < rest.len() && rest[m] == v.recents[j];
                assert(cur[m] == v.recents[j]);
            }
        }
    }
}

/// The favorites selection reads newest first: every selected entry is a
/// ledger entry of favorite content, and selected identities strictly
/// decrease along the result.
pub proof fn lemma_fav_entries_newest_first(v: StoreView, i: int)
    requires
        wf_view(v),
        0 <= i <= v.recents.len(),
    ensures
        forall|k: int|
            0 <= k < fav_entries_from(v, i).len() ==> exists|j: int|
                i <= j < v.recents.len() && #[trigger] fav_entries_from(v, i)[k] == v.recents[j]
                    && entry_is_fav(v, v.recents[j]),
        forall|k1: int, k2: int|
            0 <= k1 < k2 < fav_entries_from(v, i).len() ==> (#[trigger] fav_entries_from(
                v,
                i,
            )[k1]).id > (#[trigger] fav_entries_from(v, i)[k2]).id,
    decreases v.recents.len() - i,
{
    if 0 <= i < v.recents.len() {
        lemma_fav_entries_newest_first(v, i + 1);
        let rest = fav_entries_from(v, i + 1);
        let cur = fav_entries_from(v, i);
        if entry_is_fav(v, v.recents[i]) {
            assert(cur =~= rest.push(v.recents[i]));
            assert forall|k: int| 0 <= k < cur.len() implies exists|j: int|
                i <= j < v.recents.len() && #[trigger] cur[k] == v.recents[j] && entry_is_fav(
                    v,
                    v.recents[j],
                ) by {
                if k < rest.len() {
                    let j = choose|j: int|
                        i + 1 <= j < v.recents.len() && #[trigger] rest[k] == v.recents[j]
                            && entry_is_fav(v, v.recents[j]);
                    assert(cur[k] == v.recents[j]);
                } else {
                    assert(cur[k] == v.recents[i]);
                }
            }
            assert forall|k1: int, k2: int| 0 <= k1 < k2 < cur.len() implies (
            #[trigger] cur[k1]).id > (#[trigger] cur[k2]).id by {
                if k2 == cur.len() - 1 {
                    let j = choose|j: int|
                        i + 1 <= j < v.recents.len() && #[trigger] rest[k1] == v.recents[j]
                            && entry_is_fav(v, v.recents[j]);
                    assert(v.recents[j].id > v.recents[i].id);
                }
            }
        } else {
            assert(cur =~= rest);
        }
    }
}

/// The search selection reads newest first: selected identities strictly
/// decrease along the result.
pub proof fn lemma_search_entries_newest_first(v: StoreView, needle: Seq<char>, i: int)
    requires
        wf_view(v),
        0 <= i <= v.recents.len(),
    ensures
        forall|k: int|
            0 <= k < search_entries_from(v, needle, i).len() ==> exists|j: int|
                i <= j < v.recents.len() && #[trigger] search_entries_from(v, needle, i)[k]
                    == v.recents[j],
        forall|k1: int, k2: int|
            0 <= k1 < k2 < search_entries_from(v, needle, i).len() ==> (
            #[trigger] search_entries_from(v, needle, i)[k1]).id > (#[trigger] search_entries_from(
                v,
                needle,
                i,
            )[k2]).id,
    decreases v.recents.len() - i,
{
    if 0 <= i < v.recents.len() {
        lemma_search_entries_newest_first(v, needle, i + 1);
        let rest = search_entries_from(v, needle, i + 1);
        let cur = search_entries_from(v, needle, i);
        if entry_first_for_content(v.recents, i) && entry_matches_search(
            v,
            v.recents[i],
            needle,
        ) {
            assert(cur =~= rest.push(v.recents[i]));
            assert forall|k: int| 0 <= k < cur.len() implies exists|j: int|
                i <= j < v.recents.len() && #[trigger] cur[k] == v.recents[j] by {
                if k < rest.len() {
                    let j = choose|j: int|
                        i + 1 <= j < v.recents.len() && #[trigger] rest[k] == v.recents[j];
                    assert(cur[k] == v.recents[j]);
                } else {
                    assert(cur[k] == v.recents[i]);
                }
            }
            assert forall|k1: int, k2: int| 0 <= k1 < k2 < cur.len() implies (
            #[trigger] cur[k1]).id > (#[trigger] cur[k2]).id by {
                if k2 == cur.len() - 1 {
                    let j = choose|j: int|
                        i + 1 <= j < v.recents.len() && #[trigger] rest[k1] == v.recents[j];
                    assert(v.recents[j].id > v.recents[i].id);
                }
            }
        } else {
            assert(cur =~= rest);
        }
    }
}

/// Content lookups see only identities, so two stores whose rows carry the
/// same identities resolve every lookup alike.
proof fn lemma_index_same_ids(cs1: Seq<CopiedData>, cs2: Seq<CopiedData>, id: usize, j: int)
    requires
        cs1.len() == cs2.len(),
        forall|k: int| 0 <= k < cs1.len() ==> (#[trigger] cs1[k]).id == cs2[k].id,
        0 <= j,
    ensures
        index_of_content_from(cs1, id, j) == index_of_content_from(cs2, id, j),
    decreases cs1.len() - j + 1,
{
    if j < cs1.len() {
        lemma_index_same_ids(cs1, cs2, id, j + 1);
    }
}

/// Search reads only identities, kinds and text, so flipping a favorite flag
/// changes no search selection.
proof fn lemma_search_same_after_flag(
    pre: StoreView,
    post: StoreView,
    ci: int,
    val: bool,
    needle: Seq<char>,
    i: int,
)
    requires
        0 <= ci < pre.contents.len(),
        post.contents == pre.contents.update(ci, with_flag(pre.contents[ci], val)),
        post.recents == pre.recents,
    ensures
        search_entries_from(post, needle, i) == search_entries_from(pre, needle, i),
    decreases pre.recents.len() - i + 1,
{
    if 0 <= i < pre.recents.len() {
        lemma_search_same_after_flag(pre, post, ci, val, needle, i + 1);
        let rid = pre.recents[i].row_id;
        lemma_index_same_ids(pre.contents, post.contents, rid, 0);
        lemma_index_of_content_from_spec(pre.contents, rid, 0);
        match index_of_content(pre.contents, rid) {
            Some(j) => {
                if j == ci {
                    assert(post.contents[j] == with_flag(pre.contents[ci], val));
                } else {
                    assert(post.contents[j] == pre.contents[j]);
                }
                assert(post.contents[j].type_of == pre.contents[j].type_of);
                assert(post.contents[j].text_data == pre.contents[j].text_data);
            },
            None => {},
        }
        assert(entry_matches_search(post, post.recents[i], needle) == entry_matches_search(
            pre,
            pre.recents[i],
            needle,
        ));
    }
}

/// Favorites isolation: setting or clearing the favorite flag of one content
/// row moves exactly that content's ledger entries in or out of the
/// favorites selection, and leaves both the `Recent` page contents and every
/// search selection untouched.
pub proof fn lemma_favorites_isolation(
    pre: StoreView,
    post: StoreView,
    index: usize,
    ci: int,
    val: bool,
)
    requires
        wf_view(pre),
        index_of_content(pre.contents, index) == Some(ci),
        post.contents == pre.contents.update(ci, with_flag(pre.contents[ci], val)),
        post.recents == pre.recents,
    ensures
        forall|k: int|
            0 <= k < post.recents.len() ==> entry_is_fav(post, #[trigger] post.recents[k]) == (
            if pre.recents[k].row_id == index {
                val
            } else {
                entry_is_fav(pre, pre.recents[k])
            }),
        forall|limit: usize, skip: usize|
            #[trigger] recent_count(post, limit, skip) == recent_count(pre, limit, skip),
        forall|skip: usize, k: int|
            #[trigger] nth_recent(post, skip, k) == nth_recent(pre, skip, k),
        forall|needle: Seq<char>|
            #[trigger] search_entries(post, needle) == search_entries(pre, needle),
{
    lemma_index_of_content_from_spec(pre.contents, index, 0);
    assert forall|k: int| 0 <= k < post.recents.len() implies entry_is_fav(
        post,
        #[trigger] post.recents[k],
    ) == (if pre.recents[k].row_id == index {
        val
    } else {
        entry_is_fav(pre, pre.recents[k])
    }) by {
        let rid = pre.recents[k].row_id;
        lemma_index_same_ids(pre.contents, post.contents, rid, 0);
        lemma_index_of_content_from_spec(pre.contents, rid, 0);
        match index_of_content(pre.contents, rid) {
            Some(j) => {
                if rid == index {
                    assert(j == ci) by {
                        lemma_index_of_content_from_spec(pre.contents, index, 0);
                        if j < ci {
                            assert(pre.contents[j].id != pre.contents[ci].id);
                        } else if ci < j {
                            assert(pre.contents[ci].id != pre.contents[j].id);
                        }
                    }
                } else {
                    assert(pre.contents[j].id == rid);
                    assert(j != ci);
                }
            },
            None => {},
        }
    }
    assert forall|needle: Seq<char>| #[trigger] search_entries(post, needle) == search_entries(
        pre,
        needle,
    ) by {
        lemma_search_same_after_flag(pre, post, ci, val, needle, 0);
    }
}

} // verus!

