//! What the request handlers decide: responses, the page window of a search
//! request, the item query (a lookup by identifier or a search), deleting a
//! batch of entries, and the job and notification bookkeeping of a download.
use vstd::prelude::*;
use vstd::string::*;
use crate::catalog::{Catalog, CatalogError, Item, has_live_id};
use crate::hub::{Broadcaster, EventMsgLevel, EventView, deliver};
use crate::jobs::{JobError, JobState, JobTracker, has_job, updated};
use crate::search::{item_views, search_answer};
use crate::text::lower_words;

verus! {

/// The reply of a request that only reports how it went.
pub struct CommonResponse {
    pub msg: String,
    pub err: Option<String>,
}

impl CommonResponse {
    /// A reply that carries only an error.
    pub fn from_err(err: &str) -> (r: Self)
        ensures
            r.msg@.len() == 0,
            r.err is Some && r.err->Some_0@ == err@,
    {
        CommonResponse { msg: String::new(), err: Some(err.to_owned()) }
    }

    /// A reply that carries only a message.
    pub fn from_msg(msg: &str) -> (r: Self)
        ensures
            r.msg@ == msg@,
            r.err is None,
    {
        CommonResponse { msg: msg.to_owned(), err: None }
    }
}

/// The parameters of an item query. An identifier, where given, takes
/// precedence over the search.
pub struct SearchQuery {
    pub id: Option<i64>,
    pub page: Option<i64>,
    pub count: Option<i64>,
    pub search: String,
    pub tag_only: Option<bool>,
    pub duplicate_only: Option<bool>,
}

pub open spec fn max_int(a: int, b: int) -> int {
    if a >= b { a } else { b }
}

pub open spec fn min_usize(a: int) -> int {
    if a <= usize::MAX { a } else { usize::MAX as int }
}

/// Entries per page: the requested count, or `per_page`, and at least one.
pub open spec fn limit_of(count: Option<i64>, per_page: i64) -> int {
    max_int(1, match count { Some(c) => c as int, None => per_page as int })
}

/// Entries before the page: pages are numbered from one, and a page below one
/// is the first.
pub open spec fn offset_of(page: Option<i64>, count: Option<i64>, per_page: i64) -> int {
    (max_int(1, match page { Some(p) => p as int, None => 1 }) - 1) * limit_of(count, per_page)
}

/// The limit and offset of a page request. Values past `usize::MAX` are cut
/// to it, which selects the same entries.
pub fn page_window(page: Option<i64>, count: Option<i64>, per_page: i64) -> (r: (usize, usize))
    ensures
        r.0 as int == min_usize(limit_of(count, per_page)),
        r.1 as int == min_usize(offset_of(page, count, per_page)),
{
    let c: i64 = match count {
        Some(c) => c,
        None => per_page,
    };
    let limit: i128 = if c < 1 { 1 } else { c as i128 };
    let p: i64 = match page {
        Some(p) => p,
        None => 1,
    };
    let pages_before: i128 = if p < 1 { 0 } else { p as i128 - 1 };
    assert(0 <= pages_before * limit <= 0x7fff_ffff_ffff_ffff * 0x7fff_ffff_ffff_ffff) by (nonlinear_arith)
        requires
            0 <= pages_before <= 0x7fff_ffff_ffff_ffff,
            1 <= limit <= 0x7fff_ffff_ffff_ffff,
    ;
    let offset: i128 = pages_before * limit;
    let lim = if limit <= usize::MAX as i128 { limit as usize } else { usize::MAX };
    let off = if offset <= usize::MAX as i128 { offset as usize } else { usize::MAX };
    (lim, off)
}

/// How many pages `total` entries fill at `limit` per page, counted as the
/// item listing does (one more than the whole pages).
pub fn total_pages(total: u64, limit: usize) -> (r: u64)
    requires
        limit >= 1,
    ensures
        r as int == if total as int / limit as int + 1 <= u64::MAX { total as int / limit as int + 1 } else {
            u64::MAX as int
        },
{
    let q = total / (limit as u64);
    if q < u64::MAX {
        q + 1
    } else {
        q
    }
}

/// One page of an item query.
pub struct ItemsPage {
    pub items: Vec<Item>,
    pub total: u64,
    pub limit: usize,
    pub err: Option<CatalogError>,
}

/// Answers an item query: the entry with the requested identifier, or else
/// one page of the search for `q.search` (`tag_only` and `duplicate_only`
/// default to false), with `per_page` entries per page unless `q.count` says
/// otherwise. A lookup that finds nothing yields no items and the error.
pub fn find_items(catalog: &Catalog, q: &SearchQuery, per_page: i64) -> (r: ItemsPage)
    requires
        catalog.wf(),
    ensures
        r.limit as int == min_usize(limit_of(q.count, per_page)),
        q.id is Some && has_live_id(catalog@, q.id->Some_0) ==> r.err is None && r.total == 1 && r.items@.len()
            == 1 && forall|i: int|
            0 <= i < catalog@.len() && #[trigger] catalog@[i].id == q.id->Some_0 && catalog@[i].live
                ==> r.items@[0]@ == catalog@[i].item_view(),
        q.id is Some && !has_live_id(catalog@, q.id->Some_0) ==> r.err is Some && r.err->Some_0 is NotFound
            && r.total == 0 && r.items@.len() == 0,
        q.id is None ==> r.err is None && search_answer(
            catalog@,
            q.search@,
            lower_words(q.search@),
            min_usize(limit_of(q.count, per_page)),
            min_usize(offset_of(q.page, q.count, per_page)),
            q.tag_only == Some(true),
            q.duplicate_only == Some(true),
            item_views(r.items@),
            r.total as int,
        ),
{
    let (limit, offset) = page_window(q.page, q.count, per_page);
    match q.id {
        Some(id) => match catalog.get_by_id(id) {
            Ok(item) => {
                let mut items: Vec<Item> = Vec::new();
                items.push(item);
                ItemsPage { items, total: 1, limit, err: None }
            },
            Err(e) => ItemsPage { items: Vec::new(), total: 0, limit, err: Some(e) },
        },
        None => {
            let tag_only = match q.tag_only {
                Some(b) => b,
                None => false,
            };
            let dup_only = match q.duplicate_only {
                Some(b) => b,
                None => false,
            };
            let (items, total) = catalog.search(q.search.as_str(), limit, offset, tag_only, dup_only);
            ItemsPage { items, total, limit, err: None }
        },
    }
}

/// Starts the bookkeeping of a download of `url` into the file `name`: a
/// job "Download <url>" is recorded in progress, and subscribers are told
/// "Downloading file <name>: <url>". Returns the job's identifier.
pub fn begin_download(jobs: &mut JobTracker, hub: &mut Broadcaster, url: &str, name: &str) -> (r: Result<
    i64,
    JobError,
>)
    requires
        old(jobs).wf(),
        old(hub).wf(),
    ensures
        final(jobs).wf(),
        final(hub).wf(),
        r is Err <==> old(jobs).next_id_spec() == i64::MAX,
        r is Err ==> final(jobs)@ == old(jobs)@,
        r is Ok ==> {
            &&& !has_job(old(jobs)@, r->Ok_0)
            &&& final(jobs)@ == old(jobs)@.push(final(jobs)@.last())
            &&& final(jobs)@.last().id == r->Ok_0
            &&& final(jobs)@.last().description@ == "Download "@ + url@
            &&& final(jobs)@.last().error@.len() == 0
            &&& final(jobs)@.last().state == JobState::InProgress
        },
        final(hub)@ == deliver(
            old(hub)@,
            EventView::Message(EventMsgLevel::Info, "Downloading file "@ + name@ + ": "@ + url@),
        ),
{
    let description = String::from_str("Download ").concat(url);
    let r = jobs.add_job(description.as_str(), "");
    proof {
        reveal_strlit("");
        if r is Ok {
            assert(final(jobs)@ =~= old(jobs)@.push(final(jobs)@.last()));
        }
    }
    let msg = String::from_str("Downloading file ").concat(name).concat(": ").concat(url);
    hub.info(msg.as_str());
    r
}

/// Ends the bookkeeping of a download of `url` into the file `name`. On
/// `failure`, job `job` (if any) is marked failed with the error text and
/// subscribers are told "Failed to download <url>: <error>"; otherwise the job
/// is marked succeeded and subscribers are told "Finished downloading <name>".
pub fn end_download(
    jobs: &mut JobTracker,
    hub: &mut Broadcaster,
    job: Option<i64>,
    url: &str,
    name: &str,
    failure: Option<&str>,
)
    requires
        old(jobs).wf(),
        old(hub).wf(),
    ensures
        final(jobs).wf(),
        final(hub).wf(),
        job is None ==> final(jobs)@ == old(jobs)@,
        match failure {
            Some(e) => {
                &&& job is Some ==> updated(old(jobs)@, final(jobs)@, job->Some_0, e@, JobState::Failed)
                &&& final(hub)@ == deliver(
                    old(hub)@,
                    EventView::Message(EventMsgLevel::Error, "Failed to download "@ + url@ + ": "@ + e@),
                )
            },
            None => {
                &&& job is Some ==> updated(old(jobs)@, final(jobs)@, job->Some_0, seq![], JobState::Succeed)
                &&& final(hub)@ == deliver(
                    old(hub)@,
                    EventView::Message(EventMsgLevel::Info, "Finished downloading "@ + name@),
                )
            },
        },
{
    match failure {
        Some(e) => {
            if let Some(id) = job {
                let _ = jobs.update_job(id, e, JobState::Failed);
            }
            let msg = String::from_str("Failed to download ").concat(url).concat(": ").concat(e);
            hub.error(msg.as_str());
        },
        None => {
            if let Some(id) = job {
                proof {
                    reveal_strlit("");
                    assert(""@ =~= Seq::<char>::empty());
                }
                let _ = jobs.update_job(id, "", JobState::Succeed);
            }
            let msg = String::from_str("Finished downloading ").concat(name);
            hub.info(msg.as_str());
        },
    }
}

} // verus!
