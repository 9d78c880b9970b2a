//! The hybrid search over the catalog: a name phase (case-insensitive
//! substring over the display name and the model name) and a tag phase (every
//! word of the query must be a tag of the entry), each ranked most recently
//! updated first and paged on its own, then concatenated.
use vstd::prelude::*;
use crate::catalog::{Catalog, Entry, Item, hash_live};
use crate::text::{contains_fold, contains_ignore_case, eq_fold, lower_each, lower_words, split_words, str_eq_fold, views, words};

verus! {

/// How many live entries of `rows` have content hash `h`.
pub open spec fn hash_count(rows: Seq<Entry>, h: Seq<char>) -> nat
    decreases rows.len(),
{
    if rows.len() == 0 {
        0
    } else {
        hash_count(rows.drop_last(), h) + if hash_live(rows.last(), h) { 1nat } else { 0nat }
    }
}

/// `e`'s content hash is shared by at least two live entries of `rows`.
pub open spec fn is_dup(rows: Seq<Entry>, e: Entry) -> bool {
    hash_count(rows, e.hash@) >= 2
}

/// The display name or the model name of `e` contains `text`, up to ASCII case.
pub open spec fn name_match(e: Entry, text: Seq<char>) -> bool {
    (e.name is Some && contains_fold(e.name->Some_0@, text)) || (e.model_name is Some && contains_fold(
        e.model_name->Some_0@,
        text,
    ))
}

/// `e` carries a tag equal to `tok` up to ASCII case.
pub open spec fn tagged(e: Entry, tok: Seq<char>) -> bool {
    exists|g: int| 0 <= g < e.tags@.len() && eq_fold(#[trigger] e.tags@[g]@, tok)
}

/// `e` carries every one of `toks` as a tag.
pub open spec fn all_tagged(e: Entry, toks: Seq<Seq<char>>) -> bool {
    forall|t: int| 0 <= t < toks.len() ==> tagged(e, #[trigger] toks[t])
}

/// What the name phase selects.
pub open spec fn by_name(rows: Seq<Entry>, text: Seq<char>, tag_only: bool, dup_only: bool) -> spec_fn(Entry) -> bool {
    |e: Entry| !tag_only && e.live && name_match(e, text) && (!dup_only || is_dup(rows, e))
}

/// What the tag phase selects for the query words `toks`: entries that the
/// name phase did not.
pub open spec fn by_tags(rows: Seq<Entry>, text: Seq<char>, toks: Seq<Seq<char>>, tag_only: bool, dup_only: bool) -> spec_fn(Entry) -> bool {
    |e: Entry|
        e.live && toks.len() > 0 && all_tagged(e, toks) && (tag_only || !name_match(e, text))
            && (!dup_only || is_dup(rows, e))
}

/// Every live entry.
pub open spec fn any_live() -> spec_fn(Entry) -> bool {
    |e: Entry| e.live
}

/// Entry `i` comes before entry `j`: updated later, or at the same time and
/// created earlier.
pub open spec fn newer(rows: Seq<Entry>, i: int, j: int) -> bool {
    rows[i].updated_at > rows[j].updated_at || (rows[i].updated_at == rows[j].updated_at && i < j)
}

/// `ix` lists positions of `rows`, most recently updated first.
pub open spec fn sorted(rows: Seq<Entry>, ix: Seq<usize>) -> bool {
    &&& forall|k: int| 0 <= k < ix.len() ==> #[trigger] ix[k] < rows.len()
    &&& forall|a: int, b: int| 0 <= a < b < ix.len() ==> newer(rows, #[trigger] ix[a] as int, #[trigger] ix[b] as int)
}

/// `ix` lists exactly the positions of the entries that `pred` selects, most
/// recently updated first.
pub open spec fn ranked(rows: Seq<Entry>, pred: spec_fn(Entry) -> bool, ix: Seq<usize>) -> bool {
    &&& sorted(rows, ix)
    &&& forall|k: int| 0 <= k < ix.len() ==> pred(rows[#[trigger] ix[k] as int])
    &&& forall|i: int| 0 <= i < rows.len() && pred(#[trigger] rows[i]) ==> ix.contains(i as usize)
}

pub open spec fn clip(n: int, len: int) -> int {
    if n < len { n } else { len }
}

/// The page of `s` that skips `offset` elements and holds at most `limit`.
pub open spec fn page<A>(s: Seq<A>, offset: int, limit: int) -> Seq<A> {
    s.subrange(clip(offset, s.len() as int), clip(offset + limit, s.len() as int))
}

/// What lookups hand out of the entries at positions `ix`.
pub open spec fn items_at(rows: Seq<Entry>, ix: Seq<usize>) -> Seq<(i64, Option<Seq<char>>, Seq<char>, Seq<char>, Seq<char>)> {
    ix.map_values(|x: usize| rows[x as int].item_view())
}

/// `items` and `total` are what a search for `text`, with query words
/// `toks`, answers on `rows`: the
/// page of the name phase's ranking followed by the page of the tag phase's,
/// and the sum of both phases' match counts.
pub open spec fn search_answer(
    rows: Seq<Entry>,
    text: Seq<char>,
    toks: Seq<Seq<char>>,
    limit: int,
    offset: int,
    tag_only: bool,
    dup_only: bool,
    items: Seq<(i64, Option<Seq<char>>, Seq<char>, Seq<char>, Seq<char>)>,
    total: int,
) -> bool {
    exists|ix1: Seq<usize>, ix2: Seq<usize>|
        {
            &&& #[trigger] ranked(rows, by_name(rows, text, tag_only, dup_only), ix1)
            &&& #[trigger] ranked(rows, by_tags(rows, text, toks, tag_only, dup_only), ix2)
            &&& items == page(items_at(rows, ix1), offset, limit) + page(items_at(rows, ix2), offset, limit)
            &&& total == ix1.len() + ix2.len()
        }
}

pub open spec fn item_views(v: Seq<Item>) -> Seq<(i64, Option<Seq<char>>, Seq<char>, Seq<char>, Seq<char>)> {
    v.map_values(|it: Item| it@)
}

fn count_hash(rows: &Vec<Entry>, h: &str) -> (r: usize)
    ensures
        r as nat == hash_count(rows@, h@),
{
    let mut c: usize = 0;
    let mut k: usize = 0;
    while k < rows.len()
        invariant
            k <= rows@.len(),
            c <= k,
            c as nat == hash_count(rows@.subrange(0, k as int), h@),
        decreases rows@.len() - k,
    {
        assert(rows@.subrange(0, k + 1).drop_last() =~= rows@.subrange(0, k as int));
        if rows[k].live && crate::text::str_eq(rows[k].hash.as_str(), h) {
            c += 1;
        }
        k += 1;
    }
    assert(rows@.subrange(0, k as int) =~= rows@);
    c
}

fn name_matches(e: &Entry, text: &str) -> (r: bool)
    ensures
        r == name_match(*e, text@),
{
    let by_display = match &e.name {
        Some(n) => contains_ignore_case(n.as_str(), text),
        None => false,
    };
    if by_display {
        return true;
    }
    match &e.model_name {
        Some(n) => contains_ignore_case(n.as_str(), text),
        None => false,
    }
}

fn has_tag(e: &Entry, tok: &str) -> (r: bool)
    ensures
        r == tagged(*e, tok@),
{
    let mut g: usize = 0;
    while g < e.tags.len()
        invariant
            g <= e.tags@.len(),
            forall|k: int| 0 <= k < g ==> !eq_fold(#[trigger] e.tags@[k]@, tok@),
        decreases e.tags@.len() - g,
    {
        if str_eq_fold(e.tags[g].as_str(), tok) {
            return true;
        }
        g += 1;
    }
    false
}

fn has_all_tags(e: &Entry, toks: &Vec<String>) -> (r: bool)
    ensures
        r == all_tagged(*e, views(toks@)),
{
    let mut t: usize = 0;
    while t < toks.len()
        invariant
            t <= toks@.len(),
            forall|k: int| 0 <= k < t ==> tagged(*e, #[trigger] views(toks@)[k]),
        decreases toks@.len() - t,
    {
        if !has_tag(e, toks[t].as_str()) {
            assert(!tagged(*e, views(toks@)[t as int]));
            return false;
        }
        t += 1;
    }
    true
}

/// Inserts position `i`, greater than every position already listed, at its
/// place in the ranking.
fn insert_ranked(rows: &Vec<Entry>, ix: &mut Vec<usize>, i: usize)
    requires
        i < rows@.len(),
        sorted(rows@, old(ix)@),
        forall|k: int| 0 <= k < old(ix)@.len() ==> #[trigger] old(ix)@[k] < i,
    ensures
        sorted(rows@, final(ix)@),
        final(ix)@.len() == old(ix)@.len() + 1,
        forall|x: usize| #[trigger] final(ix)@.contains(x) <==> (old(ix)@.contains(x) || x == i),
{
    let ghost s = ix@;
    let mut p: usize = 0;
    while p < ix.len() && !(rows[i].updated_at > rows[ix[p]].updated_at)
        invariant
            ix@ == s,
            p <= s.len(),
            sorted(rows@, s),
            i < rows@.len(),
            forall|k: int| 0 <= k < p ==> rows@[#[trigger] s[k] as int].updated_at >= rows@[i as int].updated_at,
        decreases s.len() - p,
    {
        p += 1;
    }
    ix.insert(p, i);
    proof {
        let t = ix@;
        assert(t == s.insert(p as int, i));
        assert forall|a: int| 0 <= a < t.len() implies t[a] == if a < p { s[a] } else if a == p { i } else { s[a - 1] } by {}
        assert forall|a: int, b: int| 0 <= a < b < t.len() implies newer(rows@, #[trigger] t[a] as int, #[trigger] t[b] as int) by {
            if a < p && b < p {
            } else if a < p && b == p {
                assert(s[a] < i);
            } else if a < p {
            } else if a == p {
                assert(p < s.len());
                assert(rows@[i as int].updated_at > rows@[s[p as int] as int].updated_at);
                if b - 1 > p {
                    assert(newer(rows@, s[p as int] as int, s[b - 1] as int));
                }
            } else {
            }
        }
        assert forall|x: usize| #[trigger] t.contains(x) <==> (s.contains(x) || x == i) by {
            if t.contains(x) {
                let a = choose|a: int| 0 <= a < t.len() && t[a] == x;
                if a < p {
                    assert(s[a] == x);
                } else if a > p {
                    assert(s[a - 1] == x);
                }
            }
            if s.contains(x) {
                let a = choose|a: int| 0 <= a < s.len() && s[a] == x;
                if a < p {
                    assert(t[a] == x);
                } else {
                    assert(t[a + 1] == x);
                }
            }
            if x == i {
                assert(t[p as int] == x);
            }
        }
    }
}

fn rank_phases(rows: &Vec<Entry>, text: &str, toks: &Vec<String>, tag_only: bool, dup_only: bool) -> (r: (
    Vec<usize>,
    Vec<usize>,
))
    ensures
        ranked(rows@, by_name(rows@, text@, tag_only, dup_only), r.0@),
        ranked(rows@, by_tags(rows@, text@, views(toks@), tag_only, dup_only), r.1@),
        r.0@.len() + r.1@.len() <= rows@.len(),
{
    let ghost p1 = by_name(rows@, text@, tag_only, dup_only);
    let ghost p2 = by_tags(rows@, text@, views(toks@), tag_only, dup_only);
    let mut ix1: Vec<usize> = Vec::new();
    let mut ix2: Vec<usize> = Vec::new();
    let mut i: usize = 0;
    while i < rows.len()
        invariant
            p1 == by_name(rows@, text@, tag_only, dup_only),
            p2 == by_tags(rows@, text@, views(toks@), tag_only, dup_only),
            i <= rows@.len(),
            sorted(rows@, ix1@),
            sorted(rows@, ix2@),
            forall|k: int| 0 <= k < ix1@.len() ==> #[trigger] ix1@[k] < i && p1(rows@[ix1@[k] as int]),
            forall|k: int| 0 <= k < ix2@.len() ==> #[trigger] ix2@[k] < i && p2(rows@[ix2@[k] as int]),
            forall|j: int| 0 <= j < i && p1(#[trigger] rows@[j]) ==> ix1@.contains(j as usize),
            forall|j: int| 0 <= j < i && p2(#[trigger] rows@[j]) ==> ix2@.contains(j as usize),
            ix1@.len() + ix2@.len() <= i,
        decreases rows@.len() - i,
    {
        let e = &rows[i];
        let dup_ok = !dup_only || count_hash(rows, e.hash.as_str()) >= 2;
        let ghost old1 = ix1@;
        let ghost old2 = ix2@;
        if e.live && dup_ok {
            let nm = name_matches(e, text);
            if !tag_only && nm {
                insert_ranked(rows, &mut ix1, i);
            } else if toks.len() > 0 && (tag_only || !nm) && has_all_tags(e, toks) {
                insert_ranked(rows, &mut ix2, i);
            }
        }
        proof {
            assert(p1(rows@[i as int]) == (!tag_only && rows@[i as int].live && name_match(rows@[i as int], text@) && (!dup_only || is_dup(rows@, rows@[i as int]))));
            assert(p2(rows@[i as int]) == (rows@[i as int].live && views(toks@).len() > 0 && all_tagged(rows@[i as int], views(toks@)) && (tag_only || !name_match(rows@[i as int], text@))
                && (!dup_only || is_dup(rows@, rows@[i as int]))));
            assert(p1(rows@[i as int]) ==> ix1@.contains(i));
            assert(p2(rows@[i as int]) ==> ix2@.contains(i));
            assert forall|k: int| 0 <= k < ix1@.len() implies #[trigger] ix1@[k] < i + 1 && p1(rows@[ix1@[k] as int]) by {
                assert(ix1@.contains(ix1@[k]));
                if ix1@[k] != i {
                    let a = choose|a: int| 0 <= a < old1.len() && old1[a] == ix1@[k];
                }
            }
            assert forall|k: int| 0 <= k < ix2@.len() implies #[trigger] ix2@[k] < i + 1 && p2(rows@[ix2@[k] as int]) by {
                assert(ix2@.contains(ix2@[k]));
                if ix2@[k] != i {
                    let a = choose|a: int| 0 <= a < old2.len() && old2[a] == ix2@[k];
                }
            }
            assert forall|j: int| 0 <= j < i + 1 && p1(#[trigger] rows@[j]) implies ix1@.contains(j as usize) by {
                if j < i {
                    assert(old1.contains(j as usize));
                }
            }
            assert forall|j: int| 0 <= j < i + 1 && p2(#[trigger] rows@[j]) implies ix2@.contains(j as usize) by {
                if j < i {
                    assert(old2.contains(j as usize));
                }
            }
        }
        i += 1;
    }
    (ix1, ix2)
}

/// The items at the positions of one page of a ranking.
fn collect_page(rows: &Vec<Entry>, ix: &Vec<usize>, offset: usize, limit: usize) -> (r: Vec<Item>)
    requires
        sorted(rows@, ix@),
    ensures
        item_views(r@) == page(items_at(rows@, ix@), offset as int, limit as int),
{
    let len = ix.len();
    let start = if offset < len { offset } else { len };
    let end = if offset >= len { len } else if limit >= len - offset { len } else { offset + limit };
    let ghost whole = items_at(rows@, ix@);
    let mut out: Vec<Item> = Vec::new();
    let mut k: usize = start;
    while k < end
        invariant
            start <= k <= end <= len,
            len == ix@.len(),
            sorted(rows@, ix@),
            whole == items_at(rows@, ix@),
            item_views(out@) == whole.subrange(start as int, k as int),
        decreases end - k,
    {
        let it = rows[ix[k]].to_item();
        proof {
            assert(item_views(out@.push(it)) =~= item_views(out@).push(it@));
            assert(whole.subrange(start as int, k + 1) =~= whole.subrange(start as int, k as int).push(whole[k as int]));
        }
        out.push(it);
        k += 1;
    }
    out
}

impl Catalog {
    /// Hybrid search. Unless `tag_only`, the name phase selects live entries
    /// whose display name or model name contains `text` (ASCII case ignored);
    /// when `text` holds words, the tag phase selects the other live entries
    /// that carry every word, in lower case, as a tag (tag names compared up
    /// to ASCII case). With `duplicate_only`, both phases keep only entries
    /// whose content hash is shared by another live entry. Each phase is
    /// ranked most recently updated first and paged by `offset` and `limit` on
    /// its own; the result is the name page followed by the tag page, with
    /// the sum of both phases' match counts.
    pub fn search(&self, text: &str, limit: usize, offset: usize, tag_only: bool, duplicate_only: bool) -> (r: (
        Vec<Item>,
        u64,
    ))
        ensures
            search_answer(
                self@,
                text@,
                lower_words(text@),
                limit as int,
                offset as int,
                tag_only,
                duplicate_only,
                item_views(r.0@),
                r.1 as int,
            ),
    {
        let toks = lower_each(&split_words(text));
        proof {
            assert(views(toks@) =~= lower_words(text@));
        }
        self.search_words(text, &toks, limit, offset, tag_only, duplicate_only)
    }

    /// The search of `search`, given the query words already split and
    /// lowered as `toks`.
    pub fn search_words(
        &self,
        text: &str,
        toks: &Vec<String>,
        limit: usize,
        offset: usize,
        tag_only: bool,
        duplicate_only: bool,
    ) -> (r: (Vec<Item>, u64))
        ensures
            search_answer(
                self@,
                text@,
                views(toks@),
                limit as int,
                offset as int,
                tag_only,
                duplicate_only,
                item_views(r.0@),
                r.1 as int,
            ),
    {
        let rows = self.entries();
        let n = rows.len();
        let (ix1, ix2) = rank_phases(rows, text, toks, tag_only, duplicate_only);
        let mut items = collect_page(rows, &ix1, offset, limit);
        let mut tail = collect_page(rows, &ix2, offset, limit);
        let ghost a = items@;
        let ghost b = tail@;
        items.append(&mut tail);
        proof {
            assert(item_views(items@) =~= item_views(a) + item_views(b));
        }
        let total = ix1.len() + ix2.len();
        (items, total as u64)
    }

    /// One page of the live entries, most recently updated first, with their
    /// number.
    pub fn get(&self, limit: usize, offset: usize) -> (r: (Vec<Item>, u64))
        ensures
            exists|ix: Seq<usize>|
                {
                    &&& ranked(self@, any_live(), ix)
                    &&& item_views(r.0@) == page(items_at(self@, ix), offset as int, limit as int)
                    &&& r.1 == ix.len()
                },
    {
        let rows = self.entries();
        let ghost p = any_live();
        let mut ix: Vec<usize> = Vec::new();
        let mut i: usize = 0;
        while i < rows.len()
            invariant
                p == any_live(),
                i <= rows@.len(),
                sorted(rows@, ix@),
                forall|k: int| 0 <= k < ix@.len() ==> #[trigger] ix@[k] < i && p(rows@[ix@[k] as int]),
                forall|j: int| 0 <= j < i && p(#[trigger] rows@[j]) ==> ix@.contains(j as usize),
                ix@.len() <= i,
            decreases rows@.len() - i,
        {
            let ghost old_ix = ix@;
            if rows[i].live {
                insert_ranked(rows, &mut ix, i);
            }
            proof {
                assert(p(rows@[i as int]) == rows@[i as int].live);
                assert(p(rows@[i as int]) ==> ix@.contains(i));
                assert forall|k: int| 0 <= k < ix@.len() implies #[trigger] ix@[k] < i + 1 && p(rows@[ix@[k] as int]) by {
                    assert(ix@.contains(ix@[k]));
                    if ix@[k] != i {
                        let a = choose|a: int| 0 <= a < old_ix.len() && old_ix[a] == ix@[k];
                    }
                }
                assert forall|j: int| 0 <= j < i + 1 && p(#[trigger] rows@[j]) implies ix@.contains(j as usize) by {
                    if j < i {
                        assert(old_ix.contains(j as usize));
                    }
                }
            }
            i += 1;
        }
        let items = collect_page(rows, &ix, offset, limit);
        (items, ix.len() as u64)
    }
}

} // verus!
