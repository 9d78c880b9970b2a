//! Laws that relate several operations of the library.
use vstd::prelude::*;
use crate::catalog::{CatalogError, Entry, has_key, ids_unique, keys_unique, live_rows, lemma_live_rows, observed, scan_started};
use crate::hub::{SubscriberView, EventView, deliver, deliverable, delivered, ids_increasing, kept_at, lemma_deliver_kept, lemma_deliver_taken};
use crate::jobs::{Job, JobState, has_job, is_terminal, updated};
use crate::search::{all_tagged, by_name, by_tags, clip, hash_count, items_at, name_match, page, ranked, search_answer, tagged};
use crate::text::{lower_of, lower_words, words};

verus! {

/// Observing the same file twice with the same arguments leaves exactly one
/// entry for it, live, and the second observation returns the identifier of
/// the first.
pub proof fn observe_twice_one_entry(
    s0: Seq<Entry>,
    s1: Seq<Entry>,
    s2: Seq<Entry>,
    r1: Result<i64, CatalogError>,
    r2: Result<i64, CatalogError>,
    path: Seq<char>,
    label: Seq<char>,
    name: Option<Seq<char>>,
    hash: Seq<char>,
    modified_at: i64,
)
    requires
        keys_unique(s0),
        observed(s0, s1, r1, path, label, name, hash, modified_at),
        observed(s1, s2, r2, path, label, name, hash, modified_at),
        r1 is Ok,
    ensures
        r2 == r1,
        s2.len() == s1.len(),
        exists|i: int|
            0 <= i < s2.len() && #[trigger] s2[i].key() == (path, label) && s2[i].live && forall|j: int|
                0 <= j < s2.len() && j != i ==> #[trigger] s2[j].key() != (path, label),
{
    if has_key(s0, path, label) {
        let i = choose|i: int| 0 <= i < s0.len() && #[trigger] s0[i].key() == (path, label);
        assert(s1[i].key() == (path, label));
        assert(s2[i].key() == (path, label));
        assert forall|j: int| 0 <= j < s2.len() && j != i implies #[trigger] s2[j].key() != (path, label) by {
            assert(s2[j] == s1[j]);
            assert(s1[j] == s0[j]);
        }
    } else {
        let i = s0.len() as int;
        assert(s1[i].key() == (path, label));
        assert(s2[i].key() == (path, label));
        assert forall|j: int| 0 <= j < s2.len() && j != i implies #[trigger] s2[j].key() != (path, label) by {
            assert(s2[j] == s1[j]);
            assert(s1[j] == s0[j]);
        }
    }
}

/// A duplicate-only search selects, in either phase, only entries whose
/// content hash is shared by at least two live entries; outside tag-only
/// mode, every live entry whose name matches and whose hash is shared is
/// selected by the name phase.
pub proof fn duplicate_only_exact(
    rows: Seq<Entry>,
    text: Seq<char>,
    toks: Seq<Seq<char>>,
    tag_only: bool,
    ix1: Seq<usize>,
    ix2: Seq<usize>,
)
    requires
        ranked(rows, by_name(rows, text, tag_only, true), ix1),
        ranked(rows, by_tags(rows, text, toks, tag_only, true), ix2),
    ensures
        forall|k: int| 0 <= k < ix1.len() ==> hash_count(rows, #[trigger] rows[ix1[k] as int].hash@) >= 2,
        forall|k: int| 0 <= k < ix2.len() ==> hash_count(rows, #[trigger] rows[ix2[k] as int].hash@) >= 2,
        !tag_only ==> forall|i: int|
            0 <= i < rows.len() && rows[i].live && name_match(rows[i], text) && hash_count(rows, #[trigger] rows[i].hash@)
                >= 2 ==> ix1.contains(i as usize),
{
    assert forall|k: int| 0 <= k < ix1.len() implies hash_count(rows, #[trigger] rows[ix1[k] as int].hash@) >= 2 by {
        assert(by_name(rows, text, tag_only, true)(rows[ix1[k] as int]));
    }
    assert forall|k: int| 0 <= k < ix2.len() implies hash_count(rows, #[trigger] rows[ix2[k] as int].hash@) >= 2 by {
        assert(by_tags(rows, text, toks, tag_only, true)(rows[ix2[k] as int]));
    }
    assert forall|i: int|
        !tag_only && 0 <= i < rows.len() && rows[i].live && name_match(rows[i], text) && hash_count(rows, #[trigger] rows[i].hash@)
            >= 2 implies ix1.contains(i as usize) by {
        assert(by_name(rows, text, tag_only, true)(rows[i]));
    }
}

/// `hash_count` counts the live entries with the hash: it is the length of
/// that filter of `rows`.
pub proof fn hash_count_is_live_filter(rows: Seq<Entry>, h: Seq<char>)
    ensures
        hash_count(rows, h) == rows.filter(|s: Entry| s.live && s.hash@ == h).len(),
    decreases rows.len(),
{
    if rows.len() > 0 {
        hash_count_is_live_filter(rows.drop_last(), h);
        reveal_with_fuel(Seq::filter, 1);
    }
}

/// The tag phase selects only entries that carry every one of the query
/// words `toks` as a tag (tag names compared up to ASCII case).
pub proof fn tag_phase_all_words(
    rows: Seq<Entry>,
    text: Seq<char>,
    toks: Seq<Seq<char>>,
    tag_only: bool,
    dup_only: bool,
    ix2: Seq<usize>,
)
    requires
        ranked(rows, by_tags(rows, text, toks, tag_only, dup_only), ix2),
    ensures
        forall|k: int, t: int|
            0 <= k < ix2.len() && 0 <= t < toks.len() ==> tagged(#[trigger] rows[ix2[k] as int], #[trigger] toks[t]),
{
    assert forall|k: int, t: int|
        0 <= k < ix2.len() && 0 <= t < toks.len() implies tagged(#[trigger] rows[ix2[k] as int], #[trigger] toks[t]) by {
        assert(by_tags(rows, text, toks, tag_only, dup_only)(rows[ix2[k] as int]));
        assert(all_tagged(rows[ix2[k] as int], toks));
    }
}

/// The two phases of a search select different entries, and neither lists an
/// entry twice: the merged result holds no identifier twice.
pub proof fn search_phases_disjoint(
    rows: Seq<Entry>,
    text: Seq<char>,
    toks: Seq<Seq<char>>,
    tag_only: bool,
    dup_only: bool,
    ix1: Seq<usize>,
    ix2: Seq<usize>,
)
    requires
        ids_unique(rows),
        ranked(rows, by_name(rows, text, tag_only, dup_only), ix1),
        ranked(rows, by_tags(rows, text, toks, tag_only, dup_only), ix2),
    ensures
        forall|a: int, b: int|
            0 <= a < ix1.len() && 0 <= b < ix2.len() ==> rows[#[trigger] ix1[a] as int].id != rows[#[trigger] ix2[b] as int].id,
        forall|a: int, b: int| 0 <= a < b < ix1.len() ==> rows[#[trigger] ix1[a] as int].id != rows[#[trigger] ix1[b] as int].id,
        forall|a: int, b: int| 0 <= a < b < ix2.len() ==> rows[#[trigger] ix2[a] as int].id != rows[#[trigger] ix2[b] as int].id,
{
    assert forall|a: int, b: int|
        0 <= a < ix1.len() && 0 <= b < ix2.len() implies rows[#[trigger] ix1[a] as int].id != rows[#[trigger] ix2[b] as int].id by {
        assert(by_name(rows, text, tag_only, dup_only)(rows[ix1[a] as int]));
        assert(by_tags(rows, text, toks, tag_only, dup_only)(rows[ix2[b] as int]));
    }
}

/// Once a job has been marked succeeded, a later update of it (marking it
/// failed, or anything else) changes nothing: the first terminal state stays.
pub proof fn finished_job_keeps_state(
    s0: Seq<Job>,
    s1: Seq<Job>,
    s2: Seq<Job>,
    id: i64,
    e1: Seq<char>,
    e2: Seq<char>,
    later: JobState,
)
    requires
        updated(s0, s1, id, e1, JobState::Succeed),
        updated(s1, s2, id, e2, later),
    ensures
        s2 == s1,
        forall|i: int| 0 <= i < s1.len() && #[trigger] s1[i].id == id ==> is_terminal(s1[i].state),
{
    if has_job(s0, id) {
        let i = choose|i: int| 0 <= i < s0.len() && #[trigger] s0[i].id == id;
        assert(s1[i].id == id);
        assert forall|k: int| 0 <= k < s1.len() && #[trigger] s1[k].id == id implies is_terminal(s1[k].state) by {
            if !is_terminal(s0[i].state) {
                if k != i {
                    assert(s1[k] == s0[k]);
                }
                if !is_terminal(s0[k].state) {
                    assert(s1[k].state == JobState::Succeed);
                }
            } else {
                if !is_terminal(s0[k].state) {
                    assert(s0[k].id == id);
                }
            }
        }
        assert(is_terminal(s1[i].state));
    } else {
        assert forall|k: int| 0 <= k < s1.len() implies #[trigger] s1[k].id != id by {
            assert(s1[k] == s0[k]);
        }
    }
}

/// A broadcast reaches each subscriber whose delivery succeeds exactly once,
/// at the end of its mailbox, and drops each subscriber whose delivery fails.
pub proof fn broadcast_once_or_dropped(s: Seq<SubscriberView>, next: u64, ev: EventView, m: int)
    requires
        ids_increasing(s, next),
        0 <= m < s.len(),
    ensures
        deliverable(s[m]) ==> exists|k: int|
            0 <= k < deliver(s, ev).len() && #[trigger] deliver(s, ev)[k] == delivered(s[m], ev) && forall|j: int|
                0 <= j < deliver(s, ev).len() && j != k ==> #[trigger] deliver(s, ev)[j].0 != s[m].0,
        !deliverable(s[m]) ==> forall|k: int| 0 <= k < deliver(s, ev).len() ==> #[trigger] deliver(s, ev)[k].0 != s[m].0,
{
    lemma_deliver_kept(s, ev);
    lemma_deliver_taken(s, ev);
    let d = deliver(s, ev);
    if deliverable(s[m]) {
        let k = choose|k: int| 0 <= k < d.len() && d[k] == delivered(s[m], ev);
        assert forall|j: int| 0 <= j < d.len() && j != k implies #[trigger] d[j].0 != s[m].0 by {
            assert(kept_at(s, d, ev, j));
            let n = choose|n: int| 0 <= n < s.len() && deliverable(s[n]) && d[j] == #[trigger] delivered(s[n], ev);
            if n == m {
                assert(d[j] == d[k]);
                assert(ids_increasing(d, next)) by {
                    crate::hub::lemma_deliver_ids(s, ev, next);
                }
                if j < k {
                    assert(d[j].0 < d[k].0);
                } else {
                    assert(d[k].0 < d[j].0);
                }
            } else if n < m {
                assert(s[n].0 < s[m].0);
            } else {
                assert(s[m].0 < s[n].0);
            }
        }
    } else {
        assert forall|k: int| 0 <= k < d.len() implies #[trigger] d[k].0 != s[m].0 by {
            assert(kept_at(s, d, ev, k));
            let n = choose|n: int| 0 <= n < s.len() && deliverable(s[n]) && d[k] == #[trigger] delivered(s[n], ev);
            if n < m {
                assert(s[n].0 < s[m].0);
            } else if n > m {
                assert(s[m].0 < s[n].0);
            }
        }
    }
}

/// One successful observation of the file whose natural key is `key`,
/// which returned `id`.
pub open spec fn observe_step(a: Seq<Entry>, b: Seq<Entry>, key: (Seq<char>, Seq<char>), id: i64) -> bool {
    exists|name: Option<Seq<char>>, hash: Seq<char>, t: i64|
        #[trigger] observed(a, b, Ok::<i64, CatalogError>(id), key.0, key.1, name, hash, t)
}

/// `states[0]` is the start of a scan of `s0`, and each next state follows
/// from the observation of `keys[k]`, which returned `ids[k]`.
pub open spec fn scan_chain(
    s0: Seq<Entry>,
    states: Seq<Seq<Entry>>,
    keys: Seq<(Seq<char>, Seq<char>)>,
    ids: Seq<i64>,
) -> bool {
    &&& states.len() == keys.len() + 1
    &&& ids.len() == keys.len()
    &&& scan_started(s0, states[0])
    &&& forall|k: int| 0 <= k < keys.len() ==> observe_step(#[trigger] states[k], states[k + 1], keys[k], ids[k])
}

/// Some live entry of `s` has natural key `key` and identifier `id`.
pub open spec fn has_live_key(s: Seq<Entry>, key: (Seq<char>, Seq<char>), id: i64) -> bool {
    exists|j: int| 0 <= j < s.len() && #[trigger] s[j].key() == key && s[j].id == id && s[j].live
}

proof fn lemma_scan_chain(
    s0: Seq<Entry>,
    states: Seq<Seq<Entry>>,
    keys: Seq<(Seq<char>, Seq<char>)>,
    ids: Seq<i64>,
    m: int,
)
    requires
        scan_chain(s0, states, keys, ids),
        0 <= m <= keys.len(),
    ensures
        forall|j: int|
            0 <= j < states[m].len() && #[trigger] states[m][j].live ==> keys.subrange(0, m).contains(states[m][j].key()),
        forall|k: int| 0 <= k < m ==> has_live_key(states[m], #[trigger] keys[k], ids[k]),
    decreases m,
{
    if m == 0 {
        assert forall|j: int| 0 <= j < states[0].len() implies !#[trigger] states[0][j].live by {
            assert(states[0][j] == if s0[j].live { s0[j].cleared() } else { s0[j] });
        }
    } else {
        lemma_scan_chain(s0, states, keys, ids, m - 1);
        let a = states[m - 1];
        let b = states[m];
        let key = keys[m - 1];
        let id = ids[m - 1];
        assert(observe_step(a, b, key, id));
        let (name, hash, t) = choose|name: Option<Seq<char>>, hash: Seq<char>, t: i64|
            #[trigger] observed(a, b, Ok::<i64, CatalogError>(id), key.0, key.1, name, hash, t);
        let pre = keys.subrange(0, m - 1);
        let cur = keys.subrange(0, m);
        assert(cur[m - 1] == key);
        assert forall|x: (Seq<char>, Seq<char>)| pre.contains(x) implies cur.contains(x) by {
            let q = choose|q: int| 0 <= q < pre.len() && pre[q] == x;
            assert(cur[q] == x);
        }
        let w: int = if has_key(a, key.0, key.1) {
            choose|i: int| 0 <= i < a.len() && #[trigger] a[i].key() == (key.0, key.1)
        } else {
            a.len() as int
        };
        if has_key(a, key.0, key.1) {
            assert(b == a.update(w, b[w]));
        } else {
            assert(b.drop_last() == a);
        }
        assert(b[w].key() == key && b[w].live && b[w].id == id);
        assert forall|j: int| 0 <= j < b.len() && j != w implies #[trigger] b[j] == a[j] by {}
        assert forall|j: int| 0 <= j < b.len() && #[trigger] b[j].live implies cur.contains(b[j].key()) by {
            if j != w {
                assert(b[j] == a[j]);
                assert(pre.contains(a[j].key()));
            }
        }
        assert forall|k: int| 0 <= k < m implies has_live_key(b, #[trigger] keys[k], ids[k]) by {
            if k < m - 1 {
                assert(has_live_key(a, keys[k], ids[k]));
                let j = choose|j: int| 0 <= j < a.len() && #[trigger] a[j].key() == keys[k] && a[j].id == ids[k] && a[j].live;
                if j != w {
                    assert(b[j] == a[j]);
                } else {
                    assert(b[j].key() == keys[k] && b[j].id == ids[k] && b[j].live);
                }
            } else {
                assert(b[w].key() == keys[k] && b[w].id == ids[k] && b[w].live);
            }
        }
    }
}

/// Mark and sweep: after a scan is started, files are observed and the
/// sweep runs, no entry remains for a file the scan did not observe, and
/// every observed file has a live entry with the identifier its observation
/// returned.
pub proof fn sweep_keeps_exactly_observed(
    s0: Seq<Entry>,
    states: Seq<Seq<Entry>>,
    keys: Seq<(Seq<char>, Seq<char>)>,
    ids: Seq<i64>,
)
    requires
        scan_chain(s0, states, keys, ids),
    ensures
        forall|j: int|
            0 <= j < live_rows(states.last()).len() ==> keys.contains(#[trigger] live_rows(states.last())[j].key()),
        forall|i: int, j: int|
            0 <= i < s0.len() && !keys.contains(s0[i].key()) && 0 <= j < live_rows(states.last()).len()
                ==> #[trigger] live_rows(states.last())[j].key() != #[trigger] s0[i].key(),
        forall|k: int| 0 <= k < keys.len() ==> has_live_key(live_rows(states.last()), #[trigger] keys[k], ids[k]),
{
    let n = keys.len() as int;
    lemma_scan_chain(s0, states, keys, ids, n);
    assert(keys.subrange(0, n) =~= keys);
    let last = states[n];
    assert(states.last() == last);
    let out = live_rows(last);
    lemma_live_rows(last);
    assert forall|j: int| 0 <= j < out.len() implies keys.contains(#[trigger] out[j].key()) by {
        assert(out[j].live && last.contains(out[j]));
        let q = choose|q: int| 0 <= q < last.len() && last[q] == out[j];
        assert(last[q].live);
    }
    assert forall|k: int| 0 <= k < keys.len() implies has_live_key(out, #[trigger] keys[k], ids[k]) by {
        assert(has_live_key(last, keys[k], ids[k]));
        let q = choose|q: int| 0 <= q < last.len() && #[trigger] last[q].key() == keys[k] && last[q].id == ids[k] && last[q].live;
        assert(out.contains(last[q]));
        let j = choose|j: int| 0 <= j < out.len() && out[j] == last[q];
        assert(out[j].key() == keys[k] && out[j].id == ids[k] && out[j].live);
    }
}

/// A search answer lists the name phase's page before the tag phase's page,
/// each item one entry, and holds no identifier twice.
pub proof fn search_answer_distinct_ids(
    rows: Seq<Entry>,
    text: Seq<char>,
    toks: Seq<Seq<char>>,
    limit: int,
    offset: int,
    tag_only: bool,
    dup_only: bool,
    items: Seq<(i64, Option<Seq<char>>, Seq<char>, Seq<char>, Seq<char>)>,
    total: int,
)
    requires
        0 <= offset,
        0 <= limit,
        ids_unique(rows),
        search_answer(rows, text, toks, limit, offset, tag_only, dup_only, items, total),
    ensures
        forall|a: int, b: int| 0 <= a < b < items.len() ==> #[trigger] items[a].0 != #[trigger] items[b].0,
{
    let (ix1, ix2) = choose|ix1: Seq<usize>, ix2: Seq<usize>|
        {
            &&& #[trigger] ranked(rows, by_name(rows, text, tag_only, dup_only), ix1)
            &&& #[trigger] ranked(rows, by_tags(rows, text, toks, tag_only, dup_only), ix2)
            &&& items == page(items_at(rows, ix1), offset, limit) + page(items_at(rows, ix2), offset, limit)
            &&& total == ix1.len() + ix2.len()
        };
    search_phases_disjoint(rows, text, toks, tag_only, dup_only, ix1, ix2);
    let p1 = page(items_at(rows, ix1), offset, limit);
    let c1 = clip(offset, ix1.len() as int);
    let c2 = clip(offset, ix2.len() as int);
    let n1 = p1.len() as int;
    assert(items_at(rows, ix1).len() == ix1.len());
    assert(items_at(rows, ix2).len() == ix2.len());
    assert(n1 == clip(offset + limit, ix1.len() as int) - c1);
    assert forall|a: int| 0 <= a < items.len() implies #[trigger] items[a].0 == if a < n1 {
        rows[ix1[c1 + a] as int].id
    } else {
        rows[ix2[c2 + a - n1] as int].id
    } by {
        if a < n1 {
            assert(items[a] == p1[a]);
            assert(p1[a] == items_at(rows, ix1)[c1 + a]);
            assert(items_at(rows, ix1)[c1 + a] == rows[ix1[c1 + a] as int].item_view());
        } else {
            let p2 = page(items_at(rows, ix2), offset, limit);
            assert(items[a] == p2[a - n1]);
            assert(p2[a - n1] == items_at(rows, ix2)[c2 + a - n1]);
            assert(items_at(rows, ix2)[c2 + a - n1] == rows[ix2[c2 + a - n1] as int].item_view());
        }
    }
    assert forall|a: int, b: int| 0 <= a < b < items.len() implies #[trigger] items[a].0 != #[trigger] items[b].0 by {
        if a < n1 && b < n1 {
            assert(rows[ix1[c1 + a] as int].id != rows[ix1[c1 + b] as int].id);
        } else if a < n1 {
            assert(rows[ix1[c1 + a] as int].id != rows[ix2[c2 + b - n1] as int].id);
        } else {
            assert(rows[ix2[c2 + a - n1] as int].id != rows[ix2[c2 + b - n1] as int].id);
        }
    }
}

/// `item` is what lookups hand out of some entry of `rows` that `pred`
/// selects.
pub open spec fn item_of(
    rows: Seq<Entry>,
    item: (i64, Option<Seq<char>>, Seq<char>, Seq<char>, Seq<char>),
    pred: spec_fn(Entry) -> bool,
) -> bool {
    exists|i: int| 0 <= i < rows.len() && item == #[trigger] rows[i].item_view() && pred(rows[i])
}

/// A search answer is a run of items of entries that the name phase
/// selects, of length `n1`, followed by items of entries that the tag phase
/// selects.
pub proof fn search_answer_members(
    rows: Seq<Entry>,
    text: Seq<char>,
    toks: Seq<Seq<char>>,
    limit: int,
    offset: int,
    tag_only: bool,
    dup_only: bool,
    items: Seq<(i64, Option<Seq<char>>, Seq<char>, Seq<char>, Seq<char>)>,
    total: int,
) -> (n1: int)
    requires
        0 <= offset,
        0 <= limit,
        search_answer(rows, text, toks, limit, offset, tag_only, dup_only, items, total),
    ensures
        0 <= n1 <= items.len(),
        forall|k: int| 0 <= k < n1 ==> item_of(rows, #[trigger] items[k], by_name(rows, text, tag_only, dup_only)),
        forall|k: int|
            n1 <= k < items.len() ==> item_of(rows, #[trigger] items[k], by_tags(rows, text, toks, tag_only, dup_only)),
{
    let (ix1, ix2) = choose|ix1: Seq<usize>, ix2: Seq<usize>|
        {
            &&& #[trigger] ranked(rows, by_name(rows, text, tag_only, dup_only), ix1)
            &&& #[trigger] ranked(rows, by_tags(rows, text, toks, tag_only, dup_only), ix2)
            &&& items == page(items_at(rows, ix1), offset, limit) + page(items_at(rows, ix2), offset, limit)
            &&& total == ix1.len() + ix2.len()
        };
    let p1 = page(items_at(rows, ix1), offset, limit);
    let p2 = page(items_at(rows, ix2), offset, limit);
    let c1 = clip(offset, ix1.len() as int);
    let c2 = clip(offset, ix2.len() as int);
    let n1 = p1.len() as int;
    assert(items_at(rows, ix1).len() == ix1.len());
    assert(items_at(rows, ix2).len() == ix2.len());
    assert forall|k: int| 0 <= k < n1 implies item_of(rows, #[trigger] items[k], by_name(rows, text, tag_only, dup_only)) by {
        assert(items[k] == p1[k]);
        assert(p1[k] == items_at(rows, ix1)[c1 + k]);
        let i = ix1[c1 + k] as int;
        assert(items[k] == rows[i].item_view());
        assert(by_name(rows, text, tag_only, dup_only)(rows[i]));
    }
    assert forall|k: int|
        n1 <= k < items.len() implies item_of(rows, #[trigger] items[k], by_tags(rows, text, toks, tag_only, dup_only)) by {
        assert(items[k] == p2[k - n1]);
        assert(p2[k - n1] == items_at(rows, ix2)[c2 + k - n1]);
        let i = ix2[c2 + k - n1] as int;
        assert(items[k] == rows[i].item_view());
        assert(by_tags(rows, text, toks, tag_only, dup_only)(rows[i]));
    }
    n1
}

/// Live entries whose content hash occurs at least twice among the live
/// entries of `rows`.
pub open spec fn live_duplicate(rows: Seq<Entry>) -> spec_fn(Entry) -> bool {
    |e: Entry| e.live && hash_count(rows, e.hash@) >= 2
}

/// Every item of a duplicate-only search is a live entry whose content hash
/// occurs at least twice among the live entries: an entry with a unique hash
/// is never returned.
pub proof fn duplicate_only_items(
    rows: Seq<Entry>,
    text: Seq<char>,
    toks: Seq<Seq<char>>,
    limit: int,
    offset: int,
    tag_only: bool,
    items: Seq<(i64, Option<Seq<char>>, Seq<char>, Seq<char>, Seq<char>)>,
    total: int,
)
    requires
        0 <= offset,
        0 <= limit,
        search_answer(rows, text, toks, limit, offset, tag_only, true, items, total),
    ensures
        forall|k: int| 0 <= k < items.len() ==> item_of(rows, #[trigger] items[k], live_duplicate(rows)),
{
    let n1 = search_answer_members(rows, text, toks, limit, offset, tag_only, true, items, total);
    assert forall|k: int| 0 <= k < items.len() implies item_of(rows, #[trigger] items[k], live_duplicate(rows)) by {
        if k < n1 {
            let i = choose|i: int|
                0 <= i < rows.len() && items[k] == #[trigger] rows[i].item_view() && by_name(rows, text, tag_only, true)(rows[i]);
            assert(live_duplicate(rows)(rows[i]));
        } else {
            let i = choose|i: int|
                0 <= i < rows.len() && items[k] == #[trigger] rows[i].item_view() && by_tags(rows, text, toks, tag_only, true)(
                    rows[i],
                );
            assert(live_duplicate(rows)(rows[i]));
        }
    }
}

/// Entries that carry every word of `text`, lowered, as a tag (tag names
/// compared up to ASCII case).
pub open spec fn carries_every_word(text: Seq<char>) -> spec_fn(Entry) -> bool {
    |e: Entry| forall|t: int| 0 <= t < words(text).len() ==> tagged(e, lower_of(#[trigger] words(text)[t]))
}

/// Every item of a tag-only search for `text` is an entry that carries
/// every word of `text` as a tag; an entry with only some of them is never
/// returned.
pub proof fn tag_only_items_carry_every_word(
    rows: Seq<Entry>,
    text: Seq<char>,
    limit: int,
    offset: int,
    dup_only: bool,
    items: Seq<(i64, Option<Seq<char>>, Seq<char>, Seq<char>, Seq<char>)>,
    total: int,
)
    requires
        0 <= offset,
        0 <= limit,
        search_answer(rows, text, lower_words(text), limit, offset, true, dup_only, items, total),
    ensures
        forall|k: int| 0 <= k < items.len() ==> item_of(rows, #[trigger] items[k], carries_every_word(text)),
{
    let toks = lower_words(text);
    let n1 = search_answer_members(rows, text, toks, limit, offset, true, dup_only, items, total);
    assert forall|k: int| 0 <= k < items.len() implies item_of(rows, #[trigger] items[k], carries_every_word(text)) by {
        if k < n1 {
            let i = choose|i: int|
                0 <= i < rows.len() && items[k] == #[trigger] rows[i].item_view() && by_name(rows, text, true, dup_only)(rows[i]);
            assert(false);
        } else {
            let i = choose|i: int|
                0 <= i < rows.len() && items[k] == #[trigger] rows[i].item_view() && by_tags(rows, text, toks, true, dup_only)(
                    rows[i],
                );
            assert(all_tagged(rows[i], toks));
            assert forall|t: int| 0 <= t < words(text).len() implies tagged(rows[i], lower_of(#[trigger] words(text)[t])) by {
                assert(toks[t] == lower_of(words(text)[t]));
            }
            assert(carries_every_word(text)(rows[i]));
        }
    }
}

/// Entries whose display name or model name contains `text`.
pub open spec fn named_by(text: Seq<char>) -> spec_fn(Entry) -> bool {
    |e: Entry| name_match(e, text)
}

/// Entries whose names do not contain `text`.
pub open spec fn not_named_by(text: Seq<char>) -> spec_fn(Entry) -> bool {
    |e: Entry| !name_match(e, text)
}

/// Outside tag-only mode, a search answer lists every entry matched by name
/// before every entry matched only by tags.
pub proof fn name_matches_first(
    rows: Seq<Entry>,
    text: Seq<char>,
    toks: Seq<Seq<char>>,
    limit: int,
    offset: int,
    dup_only: bool,
    items: Seq<(i64, Option<Seq<char>>, Seq<char>, Seq<char>, Seq<char>)>,
    total: int,
) -> (n1: int)
    requires
        0 <= offset,
        0 <= limit,
        search_answer(rows, text, toks, limit, offset, false, dup_only, items, total),
    ensures
        0 <= n1 <= items.len(),
        forall|k: int| 0 <= k < n1 ==> item_of(rows, #[trigger] items[k], named_by(text)),
        forall|k: int| n1 <= k < items.len() ==> item_of(rows, #[trigger] items[k], not_named_by(text)),
{
    let n1 = search_answer_members(rows, text, toks, limit, offset, false, dup_only, items, total);
    assert forall|k: int| 0 <= k < n1 implies item_of(rows, #[trigger] items[k], named_by(text)) by {
        let i = choose|i: int|
            0 <= i < rows.len() && items[k] == #[trigger] rows[i].item_view() && by_name(rows, text, false, dup_only)(rows[i]);
        assert(named_by(text)(rows[i]));
    }
    assert forall|k: int| n1 <= k < items.len() implies item_of(rows, #[trigger] items[k], not_named_by(text)) by {
        let i = choose|i: int|
            0 <= i < rows.len() && items[k] == #[trigger] rows[i].item_view() && by_tags(rows, text, toks, false, dup_only)(
                rows[i],
            );
        assert(not_named_by(text)(rows[i]));
    }
    n1
}

} // verus!
