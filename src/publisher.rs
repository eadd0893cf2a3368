//! The publisher's subscriber mapping: how connection events change it, and
//! to whom each published batch goes.
//!
//! Waiting for connections and writing to them happen outside: the caller
//! hands over the events it polled, serializes a batch once when there is
//! someone to send it to, and delivers the copies that `fan_out` addresses.

use std::collections::BTreeMap;
use std::marker::PhantomData;
use vstd::laws_cmp::obeys_cmp;
use vstd::prelude::*;
use vstd::std_specs::btree::{increasing_seq, spec_keys_iter};
use vstd::std_specs::cmp::OrdSpec;
use vstd::std_specs::iter::IteratorSpec;

verus! {

broadcast use {vstd::std_specs::btree::group_btree_axioms, vstd::laws_cmp::group_laws_cmp};

/// Identity of one attached subscriber connection.
#[derive(Copy, Clone, Debug, PartialEq, Eq, Structural, PartialOrd, Ord, Hash)]
pub struct SubscriberId(pub u64);

/// A change in the state of one subscriber connection, carrying the handle
/// that sends to it when the connection is new.
pub enum SubscriberEvent<S> {
    Accepted(SubscriberId, S),
    Disconnected(SubscriberId),
    Error(SubscriberId, String),
}

/// The mapping after one event.
pub open spec fn apply_event<S>(m: Map<u64, S>, e: SubscriberEvent<S>) -> Map<u64, S> {
    match e {
        SubscriberEvent::Accepted(id, s) => m.insert(id.0, s),
        SubscriberEvent::Disconnected(id) => m.remove(id.0),
        SubscriberEvent::Error(id, _) => m.remove(id.0),
    }
}

/// The mapping after the events, applied in order.
pub open spec fn apply_events<S>(m: Map<u64, S>, es: Seq<SubscriberEvent<S>>) -> Map<u64, S>
    decreases es.len(),
{
    if es.len() == 0 {
        m
    } else {
        apply_event(apply_events(m, es.drop_last()), es.last())
    }
}

/// `ids` lists exactly the keys of `dom`, in increasing order.
pub open spec fn lists_in_order(ids: Seq<SubscriberId>, dom: Set<u64>) -> bool {
    &&& forall|i: int, j: int| 0 <= i < j < ids.len() ==> ids[i].0 < ids[j].0
    &&& forall|i: int| 0 <= i < ids.len() ==> dom.contains(#[trigger] ids[i].0)
    &&& forall|k: u64| dom.contains(k) ==> exists|i: int| 0 <= i < ids.len() && ids[i].0 == k
}

/// The publishing end of a channel of items of type `D`, with the subscribers
/// currently attached and the handle that sends to each.
pub struct Publisher<D, S> {
    subscribers: BTreeMap<u64, S>,
    marker: PhantomData<D>,
}

impl<D, S> View for Publisher<D, S> {
    type V = Map<u64, S>;

    closed spec fn view(&self) -> Map<u64, S> {
        self.subscribers@
    }
}

impl<D, S> Publisher<D, S> {
    /// A publisher with no subscriber attached.
    pub fn new() -> (r: Self)
        ensures
            r@ == Map::<u64, S>::empty(),
    {
        Publisher { subscribers: BTreeMap::new(), marker: PhantomData }
    }

    /// Applies one connection event to the mapping: a new connection is
    /// attached, replacing any entry under its id; a closed or failed one is
    /// detached, which changes nothing where it was not attached.
    pub fn apply_event(&mut self, event: SubscriberEvent<S>)
        ensures
            final(self)@ == apply_event(old(self)@, event),
    {
        match event {
            SubscriberEvent::Accepted(id, tx) => {
                self.subscribers.insert(id.0, tx);
            },
            SubscriberEvent::Disconnected(id) => {
                self.subscribers.remove(&id.0);
            },
            SubscriberEvent::Error(id, _) => {
                self.subscribers.remove(&id.0);
            },
        }
    }

    /// The handle that sends to subscriber `id`, where it is attached.
    pub fn sender(&self, id: SubscriberId) -> (r: Option<&S>)
        ensures
            match r {
                Some(s) => self@.contains_key(id.0) && *s == self@[id.0],
                None => !self@.contains_key(id.0),
            },
    {
        self.subscribers.get(&id.0)
    }

    /// The number of attached subscribers.
    pub fn len(&self) -> (r: usize)
        ensures
            r == self@.len(),
    {
        self.subscribers.len()
    }

    /// Whether no subscriber is attached.
    pub fn is_empty(&self) -> (r: bool)
        ensures
            r == self@.dom().is_empty(),
    {
        let r = self.subscribers.is_empty();
        proof {
            if !r {
                assert(self@.len() > 0);
                assert(self@.dom().len() > 0);
            }
        }
        r
    }

    /// The ids of the attached subscribers, in increasing order.
    pub fn subscriber_ids(&self) -> (r: Vec<SubscriberId>)
        ensures
            lists_in_order(r@, self@.dom()),
    {
        let ghost keys = spec_keys_iter(&self.subscribers).remaining();
        let mut ids: Vec<SubscriberId> = Vec::new();
        for k in it: self.subscribers.keys()
            invariant
                it.seq() == keys,
                ids.len() == it.index(),
                forall|i: int| 0 <= i < ids.len() ==> ids@[i].0 == *keys[i],
        {
            ids.push(SubscriberId(*k));
        }
        proof {
            assert(keys.len() == ids.len());
            assert(keys.unref().to_set() == self@.dom());
            assert(increasing_seq(keys));
            assert(obeys_cmp::<&u64>());
            assert forall|i: int, j: int| 0 <= i < j < ids.len() implies ids@[i].0 < ids@[j].0 by {
                assert(OrdSpec::cmp_spec(&keys[i], &keys[j]) is Less);
            }
            assert forall|i: int| 0 <= i < ids.len() implies self@.dom().contains(
                #[trigger] ids@[i].0,
            ) by {
                assert(keys.unref()[i] == *keys[i]);
                assert(keys.unref().contains(*keys[i]));
            }
            assert forall|k: u64| self@.dom().contains(k) implies exists|i: int|
                0 <= i < ids.len() && ids@[i].0 == k by {
                assert(keys.unref().to_set().contains(k));
                let i = choose|i: int| 0 <= i < keys.unref().len() && keys.unref()[i] == k;
                assert(ids@[i].0 == k);
            }
        }
        ids
    }

    /// Incorporates the events polled since the last call, in order, and
    /// returns the subscribers that this call's batch goes to: every one
    /// attached afterwards, in increasing order of id. Where none is
    /// attached the list is empty, and nothing is to be serialized or sent.
    pub fn publish(&mut self, events: Vec<SubscriberEvent<S>>) -> (r: Vec<SubscriberId>)
        ensures
            final(self)@ == apply_events(old(self)@, events@),
            lists_in_order(r@, final(self)@.dom()),
            r@.len() == 0 <==> final(self)@.dom().is_empty(),
    {
        let ghost start = self@;
        let ghost evs = events@;
        for event in it: events
            invariant
                it.seq() == evs,
                self@ == apply_events(start, evs.take(it.index())),
        {
            let ghost done = evs.take(it.index());
            self.apply_event(event);
            assert(evs.take(it.index() + 1).drop_last() =~= done);
        }
        assert(evs.take(evs.len() as int) =~= evs);
        let ids = self.subscriber_ids();
        proof {
            if ids@.len() == 0 {
                assert(self@.dom() =~= Set::empty());
            } else {
                assert(self@.dom().contains(ids@[0].0));
            }
        }
        ids
    }
}

/// One copy of a serialized batch, addressed to one subscriber.
pub struct Delivery {
    pub to: SubscriberId,
    pub payload: Vec<u8>,
}

/// Pairs each recipient, in order, with a copy of the batch serialized once:
/// every copy holds the same bytes.
pub fn fan_out(recipients: &Vec<SubscriberId>, payload: &Vec<u8>) -> (r: Vec<Delivery>)
    ensures
        r.len() == recipients.len(),
        forall|i: int|
            0 <= i < r.len() ==> (#[trigger] r[i]).to == recipients[i] && r[i].payload@ == payload@,
{
    let mut out: Vec<Delivery> = Vec::new();
    let mut i: usize = 0;
    while i < recipients.len()
        invariant
            i <= recipients.len(),
            out.len() == i,
            forall|j: int|
                0 <= j < i ==> (#[trigger] out[j]).to == recipients[j] && out[j].payload@
                    == payload@,
        decreases recipients.len() - i,
    {
        let copy = copy_bytes(payload);
        out.push(Delivery { to: recipients[i], payload: copy });
        i = i + 1;
    }
    out
}

/// A copy of `b`.
fn copy_bytes(b: &Vec<u8>) -> (r: Vec<u8>)
    ensures
        r@ == b@,
{
    let mut r: Vec<u8> = Vec::with_capacity(b.len());
    let mut j: usize = 0;
    while j < b.len()
        invariant
            j <= b.len(),
            r@ == b@.take(j as int),
        decreases b.len() - j,
    {
        r.push(b[j]);
        assert(b@.take(j + 1) =~= b@.take(j as int).push(b@[j as int]));
        j = j + 1;
    }
    assert(b@.take(j as int) =~= b@);
    r
}

/// Whether `e` attaches subscriber `k`.
pub open spec fn attaches<S>(e: SubscriberEvent<S>, k: u64) -> bool {
    e matches SubscriberEvent::Accepted(id, _) && id.0 == k
}

/// Whether `e` concerns subscriber `k` at all.
pub open spec fn concerns<S>(e: SubscriberEvent<S>, k: u64) -> bool {
    match e {
        SubscriberEvent::Accepted(id, _) => id.0 == k,
        SubscriberEvent::Disconnected(id) => id.0 == k,
        SubscriberEvent::Error(id, _) => id.0 == k,
    }
}

/// Applying two batches of events in turn is applying them as one batch.
pub proof fn lemma_apply_events_concat<S>(
    m: Map<u64, S>,
    a: Seq<SubscriberEvent<S>>,
    b: Seq<SubscriberEvent<S>>,
)
    ensures
        apply_events(m, a + b) == apply_events(apply_events(m, a), b),
    decreases b.len(),
{
    if b.len() == 0 {
        assert(a + b =~= a);
    } else {
        assert((a + b).drop_last() =~= a + b.drop_last());
        lemma_apply_events_concat(m, a, b.drop_last());
    }
}

/// Events that do not attach `k` leave it detached.
proof fn lemma_detached_stays<S>(m: Map<u64, S>, es: Seq<SubscriberEvent<S>>, k: u64)
    requires
        !m.contains_key(k),
        forall|j: int| 0 <= j < es.len() ==> !attaches(#[trigger] es[j], k),
    ensures
        !apply_events(m, es).contains_key(k),
    decreases es.len(),
{
    if es.len() > 0 {
        lemma_detached_stays(m, es.drop_last(), k);
        assert(!attaches(es[es.len() - 1], k));
    }
}

/// Events that do not concern `k` leave its entry as it was.
proof fn lemma_untouched_kept<S>(m: Map<u64, S>, es: Seq<SubscriberEvent<S>>, k: u64)
    requires
        forall|j: int| 0 <= j < es.len() ==> !concerns(#[trigger] es[j], k),
    ensures
        apply_events(m, es).contains_key(k) == m.contains_key(k),
        m.contains_key(k) ==> apply_events(m, es)[k] == m[k],
    decreases es.len(),
{
    if es.len() > 0 {
        lemma_untouched_kept(m, es.drop_last(), k);
        assert(!concerns(es[es.len() - 1], k));
    }
}

/// Detaching a subscriber that is not attached, on a disconnection or an
/// error, leaves the mapping as it was.
pub proof fn lemma_detach_absent<S>(m: Map<u64, S>, id: SubscriberId, cause: String)
    requires
        !m.contains_key(id.0),
    ensures
        apply_event(m, SubscriberEvent::Disconnected(id)) == m,
        apply_event(m, SubscriberEvent::Error(id, cause)) == m,
{
    assert(m.remove(id.0) =~= m);
}

/// A subscriber whose disconnection is among a call's events, with no later
/// event of that call attaching it again, is not attached after that call;
/// nor after the events of any later calls, as long as none of them attaches
/// it again.
pub proof fn lemma_disconnect_removes<S>(
    m: Map<u64, S>,
    es: Seq<SubscriberEvent<S>>,
    i: int,
    later: Seq<SubscriberEvent<S>>,
)
    requires
        0 <= i < es.len(),
        es[i] is Disconnected,
        forall|j: int| i < j < es.len() ==> !attaches(#[trigger] es[j], es[i]->Disconnected_0.0),
        forall|j: int| 0 <= j < later.len() ==> !attaches(#[trigger] later[j], es[i]->Disconnected_0.0),
    ensures
        !apply_events(m, es).contains_key(es[i]->Disconnected_0.0),
        !apply_events(apply_events(m, es), later).contains_key(es[i]->Disconnected_0.0),
{
    let k = es[i]->Disconnected_0.0;
    let head = es.take(i + 1);
    let tail = es.skip(i + 1);
    assert(head.drop_last() =~= es.take(i));
    assert(head.last() == es[i]);
    assert(!apply_events(m, head).contains_key(k));
    assert(head + tail =~= es);
    lemma_apply_events_concat(m, head, tail);
    assert forall|j: int| 0 <= j < tail.len() implies !attaches(#[trigger] tail[j], k) by {
        assert(tail[j] == es[i + 1 + j]);
    }
    lemma_detached_stays(apply_events(m, head), tail, k);
    lemma_detached_stays(apply_events(m, es), later, k);
}

/// A subscriber accepted among a call's events, with no later event of that
/// call concerning it, is attached through the accepted handle when the
/// call's batch goes out, and so is among its recipients.
pub proof fn lemma_accept_then_receive<S>(
    m: Map<u64, S>,
    es: Seq<SubscriberEvent<S>>,
    i: int,
    recipients: Seq<SubscriberId>,
)
    requires
        0 <= i < es.len(),
        es[i] is Accepted,
        forall|j: int| i < j < es.len() ==> !concerns(#[trigger] es[j], es[i]->Accepted_0.0),
        lists_in_order(recipients, apply_events(m, es).dom()),
    ensures
        apply_events(m, es).contains_key(es[i]->Accepted_0.0),
        apply_events(m, es)[es[i]->Accepted_0.0] == es[i]->Accepted_1,
        exists|r: int| 0 <= r < recipients.len() && recipients[r] == es[i]->Accepted_0,
{
    let id = es[i]->Accepted_0;
    let k = id.0;
    let head = es.take(i + 1);
    let tail = es.skip(i + 1);
    assert(head.drop_last() =~= es.take(i));
    assert(head.last() == es[i]);
    assert(head + tail =~= es);
    lemma_apply_events_concat(m, head, tail);
    assert forall|j: int| 0 <= j < tail.len() implies !concerns(#[trigger] tail[j], k) by {
        assert(tail[j] == es[i + 1 + j]);
    }
    lemma_untouched_kept(apply_events(m, head), tail, k);
    let r = choose|r: int| 0 <= r < recipients.len() && recipients[r].0 == k;
    assert(recipients[r] == id);
}

} // verus!
