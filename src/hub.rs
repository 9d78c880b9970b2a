//! The notification hub: a fan-out broadcaster over bounded per-subscriber
//! mailboxes. A delivery that fails (the subscriber is gone, or its mailbox is
//! full) counts as a disconnection and drops the subscriber.
use vstd::prelude::*;

verus! {

/// How many events a subscriber's mailbox holds.
pub const CAPACITY: usize = 10;

#[derive(PartialEq, Eq, Structural, Clone, Copy, Debug)]
pub enum EventMsgLevel {
    Info,
    Warn,
    Error,
}

/// A message for live clients, with its severity.
pub struct EventMsg {
    pub level: EventMsgLevel,
    pub msg: String,
}

/// What a subscriber receives.
pub enum Event {
    /// The acknowledgment that opens every subscription.
    Connected,
    /// The no-op comment of the liveness probe.
    Ping,
    Message(EventMsg),
}

/// The contents of an event.
pub enum EventView {
    Connected,
    Ping,
    Message(EventMsgLevel, Seq<char>),
}

impl View for Event {
    type V = EventView;

    open spec fn view(&self) -> EventView {
        match self {
            Event::Connected => EventView::Connected,
            Event::Ping => EventView::Ping,
            Event::Message(m) => EventView::Message(m.level, m.msg@),
        }
    }
}

impl Event {
    /// A copy of the event.
    pub fn duplicate(&self) -> (r: Event)
        ensures
            r@ == self@,
    {
        match self {
            Event::Connected => Event::Connected,
            Event::Ping => Event::Ping,
            Event::Message(m) => Event::Message(EventMsg { level: m.level, msg: m.msg.clone() }),
        }
    }
}

/// One live connection: its identifier, its mailbox and whether its receiving
/// end is still there.
pub struct Subscriber {
    id: u64,
    queue: Vec<Event>,
    open: bool,
}

/// (identifier, mailbox contents, receiving end present)
pub type SubscriberView = (u64, Seq<EventView>, bool);

pub open spec fn events(q: Seq<Event>) -> Seq<EventView> {
    q.map_values(|e: Event| e@)
}

impl View for Subscriber {
    type V = SubscriberView;

    closed spec fn view(&self) -> SubscriberView {
        (self.id, events(self.queue@), self.open)
    }
}

pub open spec fn subscriber_views(s: Seq<Subscriber>) -> Seq<SubscriberView> {
    s.map_values(|c: Subscriber| c@)
}

/// A delivery to `c` succeeds.
pub open spec fn deliverable(c: SubscriberView) -> bool {
    c.2 && c.1.len() < CAPACITY
}

/// `c` after `ev` was put in its mailbox.
pub open spec fn delivered(c: SubscriberView, ev: EventView) -> SubscriberView {
    (c.0, c.1.push(ev), true)
}

/// The subscribers after `ev` was offered to each of `s`: those that took it,
/// in order, with `ev` at the end of their mailbox.
pub open spec fn deliver(s: Seq<SubscriberView>, ev: EventView) -> Seq<SubscriberView>
    decreases s.len(),
{
    if s.len() == 0 {
        seq![]
    } else if deliverable(s.last()) {
        deliver(s.drop_last(), ev).push(delivered(s.last(), ev))
    } else {
        deliver(s.drop_last(), ev)
    }
}

/// Identifiers strictly increase along `s` and stay below `next`.
pub open spec fn ids_increasing(s: Seq<SubscriberView>, next: u64) -> bool {
    &&& forall|k: int| 0 <= k < s.len() ==> #[trigger] s[k].0 < next
    &&& forall|a: int, b: int| 0 <= a < b < s.len() ==> #[trigger] s[a].0 < #[trigger] s[b].0
}

/// `d[k]` is one of `s`, which took `ev`.
pub open spec fn kept_at(s: Seq<SubscriberView>, d: Seq<SubscriberView>, ev: EventView, k: int) -> bool {
    exists|m: int| 0 <= m < s.len() && deliverable(s[m]) && d[k] == #[trigger] delivered(s[m], ev)
}

/// Each subscriber that `deliver` keeps took the event.
pub proof fn lemma_deliver_kept(s: Seq<SubscriberView>, ev: EventView)
    ensures
        forall|k: int| 0 <= k < deliver(s, ev).len() ==> #[trigger] kept_at(s, deliver(s, ev), ev, k),
    decreases s.len(),
{
    if s.len() > 0 {
        let p = s.drop_last();
        lemma_deliver_kept(p, ev);
        let d = deliver(s, ev);
        let dp = deliver(p, ev);
        assert(d == if deliverable(s.last()) { dp.push(delivered(s.last(), ev)) } else { dp });
        assert forall|k: int| 0 <= k < d.len() implies #[trigger] kept_at(s, d, ev, k) by {
            if k < dp.len() {
                assert(d[k] == dp[k]);
                assert(kept_at(p, dp, ev, k));
                let m = choose|m: int| 0 <= m < p.len() && deliverable(p[m]) && dp[k] == #[trigger] delivered(p[m], ev);
                assert(s[m] == p[m]);
                assert(d[k] == delivered(s[m], ev));
            } else {
                assert(d[k] == delivered(s[s.len() - 1], ev));
            }
        }
    } else {
        assert(deliver(s, ev).len() == 0);
    }
}

/// Each subscriber that takes the event is kept by `deliver`.
pub proof fn lemma_deliver_taken(s: Seq<SubscriberView>, ev: EventView)
    ensures
        forall|m: int|
            0 <= m < s.len() && deliverable(#[trigger] s[m]) ==> exists|k: int|
                0 <= k < deliver(s, ev).len() && deliver(s, ev)[k] == delivered(s[m], ev),
    decreases s.len(),
{
    if s.len() > 0 {
        let p = s.drop_last();
        lemma_deliver_taken(p, ev);
        let d = deliver(s, ev);
        let dp = deliver(p, ev);
        assert forall|m: int| 0 <= m < s.len() && deliverable(#[trigger] s[m]) implies exists|k: int|
            0 <= k < d.len() && d[k] == delivered(s[m], ev) by {
            if m == s.len() - 1 {
                assert(d[d.len() - 1] == delivered(s[m], ev));
            } else {
                assert(p[m] == s[m]);
                let k = choose|k: int| 0 <= k < dp.len() && dp[k] == delivered(p[m], ev);
                assert(d[k] == dp[k]);
            }
        }
    }
}

/// `deliver` keeps identifiers increasing.
pub proof fn lemma_deliver_ids(s: Seq<SubscriberView>, ev: EventView, next: u64)
    requires
        ids_increasing(s, next),
    ensures
        ids_increasing(deliver(s, ev), next),
    decreases s.len(),
{
    lemma_deliver_kept(s, ev);
    if s.len() > 0 {
        let p = s.drop_last();
        assert(ids_increasing(p, next));
        lemma_deliver_ids(p, ev, next);
        lemma_deliver_kept(p, ev);
        let d = deliver(s, ev);
        let dp = deliver(p, ev);
        assert(d == if deliverable(s.last()) { dp.push(delivered(s.last(), ev)) } else { dp });
        assert forall|a: int, b: int| 0 <= a < b < d.len() implies #[trigger] d[a].0 < #[trigger] d[b].0 by {
            if b >= dp.len() {
                assert(d[a] == dp[a]);
                assert(kept_at(p, dp, ev, a));
                let m = choose|m: int| 0 <= m < p.len() && deliverable(p[m]) && dp[a] == #[trigger] delivered(p[m], ev);
                assert(s[m] == p[m]);
            } else {
                assert(d[a] == dp[a]);
                assert(d[b] == dp[b]);
            }
        }
        assert forall|k: int| 0 <= k < d.len() implies #[trigger] d[k].0 < next by {
            assert(kept_at(s, d, ev, k));
            let m = choose|m: int| 0 <= m < s.len() && deliverable(s[m]) && d[k] == #[trigger] delivered(s[m], ev);
        }
    }
}

#[derive(Debug)]
pub enum HubError {
    /// Every subscriber identifier has been handed out.
    Exhausted,
}

/// The broadcaster and its subscriber set.
pub struct Broadcaster {
    clients: Vec<Subscriber>,
    next_id: u64,
}

impl View for Broadcaster {
    type V = Seq<SubscriberView>;

    closed spec fn view(&self) -> Seq<SubscriberView> {
        subscriber_views(self.clients@)
    }
}

impl Broadcaster {
    /// Subscriber identifiers increase in order of registration and stay
    /// below the next one to hand out.
    pub closed spec fn wf(&self) -> bool {
        ids_increasing(self@, self.next_id)
    }

    /// The identifier the next subscriber gets.
    pub closed spec fn next_id_spec(&self) -> u64 {
        self.next_id
    }

    /// What a well-formed broadcaster guarantees of its subscribers.
    pub proof fn wf_facts(&self)
        requires
            self.wf(),
        ensures
            ids_increasing(self@, self.next_id_spec()),
    {
    }

    /// A broadcaster with no subscriber.
    pub fn create() -> (r: Broadcaster)
        ensures
            r.wf(),
            r@.len() == 0,
            r.next_id_spec() == 0,
    {
        let r = Broadcaster { clients: Vec::new(), next_id: 0 };
        assert(r@ =~= seq![]);
        r
    }

    /// Registers a subscriber whose mailbox starts with the connection
    /// acknowledgment, and returns its identifier.
    pub fn new_client(&mut self) -> (r: Result<u64, HubError>)
        requires
            old(self).wf(),
        ensures
            final(self).wf(),
            r is Err <==> old(self).next_id_spec() == u64::MAX,
            r is Err ==> final(self)@ == old(self)@,
            r is Ok ==> final(self)@ == old(self)@.push((r->Ok_0, seq![EventView::Connected], true)),
            final(self).next_id_spec() as int == if r is Ok { old(self).next_id_spec() + 1 } else { old(self).next_id_spec() as int },
            r is Ok ==> forall|k: int| 0 <= k < old(self)@.len() ==> #[trigger] old(self)@[k].0 < r->Ok_0,
    {
        if self.next_id == u64::MAX {
            return Err(HubError::Exhausted);
        }
        let id = self.next_id;
        let mut queue: Vec<Event> = Vec::new();
        queue.push(Event::Connected);
        let ghost before = self.clients@;
        let c = Subscriber { id, queue, open: true };
        assert(c@ == (id, seq![EventView::Connected], true)) by {
            assert(events(c.queue@) =~= seq![EventView::Connected]);
        }
        self.clients.push(c);
        self.next_id = id + 1;
        assert(subscriber_views(self.clients@) =~= subscriber_views(before).push(c@));
        Ok(id)
    }

    /// Offers `ev` to every subscriber; those whose delivery fails are
    /// dropped.
    fn offer(&mut self, ev: Event)
        requires
            old(self).wf(),
        ensures
            final(self).wf(),
            final(self).next_id_spec() == old(self).next_id_spec(),
            final(self)@ == deliver(old(self)@, ev@),
    {
        let ghost before = self@;
        let mut pending: Vec<Subscriber> = Vec::new();
        std::mem::swap(&mut self.clients, &mut pending);
        let mut kept: Vec<Subscriber> = Vec::new();
        let ghost mut j: int = 0;
        proof {
            assert(before.subrange(0, 0) =~= seq![]);
            assert(subscriber_views(kept@) =~= seq![]);
            assert(subscriber_views(pending@) =~= before.subrange(0, before.len() as int));
        }
        while pending.len() > 0
            invariant
                0 <= j <= before.len(),
                subscriber_views(kept@) == deliver(before.subrange(0, j), ev@),
                subscriber_views(pending@) == before.subrange(j, before.len() as int),
            decreases pending@.len(),
        {
            let ghost pv = pending@;
            assert(subscriber_views(pv).len() == pv.len());
            assert(j < before.len());
            let mut c = pending.remove(0);
            proof {
                assert(subscriber_views(pv)[0] == c@);
                assert(before.subrange(j, before.len() as int)[0] == before[j]);
                assert(before.subrange(0, j + 1).drop_last() =~= before.subrange(0, j));
                assert(subscriber_views(pending@) =~= before.subrange(j + 1, before.len() as int)) by {
                    assert forall|k: int| 0 <= k < pending@.len() implies #[trigger] subscriber_views(pending@)[k] == before.subrange(j + 1, before.len() as int)[k] by {
                        assert(pending@[k] == pv[k + 1]);
                        assert(subscriber_views(pv)[k + 1] == before.subrange(j, before.len() as int)[k + 1]);
                    }
                }
            }
            if c.open && c.queue.len() < CAPACITY {
                let ghost cq = c.queue@;
                c.queue.push(ev.duplicate());
                proof {
                    assert(events(c.queue@) =~= events(cq).push(ev@));
                }
                let ghost kv = kept@;
                kept.push(c);
                proof {
                    assert(subscriber_views(kept@) =~= subscriber_views(kv).push(c@));
                }
            }
            proof {
                j = j + 1;
            }
        }
        proof {
            assert(j == before.len());
            assert(before.subrange(0, j) =~= before);
            lemma_deliver_ids(before, ev@, self.next_id);
        }
        self.clients = kept;
    }

    /// Sends `msg` to every subscriber; those whose delivery fails are
    /// dropped.
    pub fn broadcast(&mut self, msg: EventMsg)
        requires
            old(self).wf(),
        ensures
            final(self).wf(),
            final(self).next_id_spec() == old(self).next_id_spec(),
            final(self)@ == deliver(old(self)@, EventView::Message(msg.level, msg.msg@)),
    {
        self.offer(Event::Message(msg));
    }

    /// The liveness probe: sends a ping to every subscriber and drops those
    /// whose delivery fails.
    pub fn remove_stale_clients(&mut self)
        requires
            old(self).wf(),
        ensures
            final(self).wf(),
            final(self).next_id_spec() == old(self).next_id_spec(),
            final(self)@ == deliver(old(self)@, EventView::Ping),
    {
        self.offer(Event::Ping);
    }

    /// Broadcasts `msg` at level Info.
    pub fn info(&mut self, msg: &str)
        requires
            old(self).wf(),
        ensures
            final(self).wf(),
            final(self).next_id_spec() == old(self).next_id_spec(),
            final(self)@ == deliver(old(self)@, EventView::Message(EventMsgLevel::Info, msg@)),
    {
        self.broadcast(EventMsg { level: EventMsgLevel::Info, msg: msg.to_owned() });
    }

    /// Broadcasts `msg` at level Warn.
    pub fn warn(&mut self, msg: &str)
        requires
            old(self).wf(),
        ensures
            final(self).wf(),
            final(self).next_id_spec() == old(self).next_id_spec(),
            final(self)@ == deliver(old(self)@, EventView::Message(EventMsgLevel::Warn, msg@)),
    {
        self.broadcast(EventMsg { level: EventMsgLevel::Warn, msg: msg.to_owned() });
    }

    /// Broadcasts `msg` at level Error.
    pub fn error(&mut self, msg: &str)
        requires
            old(self).wf(),
        ensures
            final(self).wf(),
            final(self).next_id_spec() == old(self).next_id_spec(),
            final(self)@ == deliver(old(self)@, EventView::Message(EventMsgLevel::Error, msg@)),
    {
        self.broadcast(EventMsg { level: EventMsgLevel::Error, msg: msg.to_owned() });
    }

    fn find(&self, id: u64) -> (r: Option<usize>)
        ensures
            match r {
                Some(k) => k < self@.len() && self@[k as int].0 == id,
                None => forall|k: int| 0 <= k < self@.len() ==> #[trigger] self@[k].0 != id,
            },
    {
        let mut k: usize = 0;
        while k < self.clients.len()
            invariant
                k <= self@.len(),
                self@ == subscriber_views(self.clients@),
                forall|a: int| 0 <= a < k ==> #[trigger] self@[a].0 != id,
            decreases self@.len() - k,
        {
            if self.clients[k].id == id {
                return Some(k);
            }
            k += 1;
        }
        None
    }

    /// Whether subscriber `id` is registered.
    pub fn is_subscribed(&self, id: u64) -> (r: bool)
        ensures
            r == exists|k: int| 0 <= k < self@.len() && #[trigger] self@[k].0 == id,
    {
        match self.find(id) {
            Some(k) => {
                assert(self@[k as int].0 == id);
                true
            },
            None => false,
        }
    }

    /// The receiving end of subscriber `id` reads its mailbox empty.
    pub fn receive(&mut self, id: u64) -> (r: Vec<Event>)
        requires
            old(self).wf(),
        ensures
            final(self).wf(),
            final(self).next_id_spec() == old(self).next_id_spec(),
            (forall|k: int| 0 <= k < old(self)@.len() ==> #[trigger] old(self)@[k].0 != id) ==> r@.len() == 0
                && final(self)@ == old(self)@,
            forall|k: int|
                0 <= k < old(self)@.len() && #[trigger] old(self)@[k].0 == id ==> events(r@) == old(self)@[k].1
                    && final(self)@ == old(self)@.update(k, (id, seq![], old(self)@[k].2)),
    {
        match self.find(id) {
            None => Vec::new(),
            Some(k) => {
                let ghost before = self@;
                let mut q: Vec<Event> = Vec::new();
                std::mem::swap(&mut self.clients[k].queue, &mut q);
                proof {
                    assert(events(self.clients@[k as int].queue@) =~= seq![]);
                    assert(self@ =~= before.update(k as int, (id, seq![], before[k as int].2)));
                    assert forall|a: int| 0 <= a < before.len() && #[trigger] before[a].0 == id implies a == k by {
                        if a < k {
                            assert(before[a].0 < before[k as int].0);
                        } else if a > k {
                            assert(before[k as int].0 < before[a].0);
                        }
                    }
                }
                q
            },
        }
    }

    /// The receiving end of subscriber `id` goes away; its next delivery
    /// fails.
    pub fn disconnect(&mut self, id: u64)
        requires
            old(self).wf(),
        ensures
            final(self).wf(),
            final(self).next_id_spec() == old(self).next_id_spec(),
            (forall|k: int| 0 <= k < old(self)@.len() ==> #[trigger] old(self)@[k].0 != id) ==> final(self)@
                == old(self)@,
            forall|k: int|
                0 <= k < old(self)@.len() && #[trigger] old(self)@[k].0 == id ==> final(self)@ == old(self)@.update(
                    k,
                    (id, old(self)@[k].1, false),
                ),
    {
        match self.find(id) {
            None => {},
            Some(k) => {
                let ghost before = self@;
                self.clients[k].open = false;
                proof {
                    assert(self@ =~= before.update(k as int, (id, before[k as int].1, false)));
                    assert forall|a: int| 0 <= a < before.len() && #[trigger] before[a].0 == id implies a == k by {
                        if a < k {
                            assert(before[a].0 < before[k as int].0);
                        } else if a > k {
                            assert(before[k as int].0 < before[a].0);
                        }
                    }
                }
            },
        }
    }
}

} // verus!
