//! The broker: topics, their subscribers, and each subscriber's own queue of
//! pending messages and table of messages handed out but not yet settled.
use std::collections::{HashMap, VecDeque};
use std::sync::Arc;
use std::time::{Duration, Instant};
use crate::signal::Signal;
use tokio::sync::Notify;
use vstd::prelude::*;
use crate::keyed::{
    distinct_keys, keyed, lemma_keyed_at, lemma_keyed_empty, lemma_keyed_key, lemma_keyed_push,
    lemma_keyed_related, lemma_keyed_update,
};

verus! {

broadcast use vstd::std_specs::hash::group_hash_axioms;

/// What a message is to the contracts: its identifier and its body.
pub type MessageView = (u64, Seq<char>);

/// A message carried by the broker: an identifier and a body.
#[derive(Clone)]
pub struct Message {
    pub id: u64,
    pub body: String,
}

impl View for Message {
    type V = MessageView;

    open spec fn view(&self) -> MessageView {
        (self.id, self.body@)
    }
}

impl Message {
    /// A copy of this message.
    pub fn duplicate(&self) -> (r: Message)
        ensures
            r@ == self@,
    {
        Message { id: self.id, body: self.body.clone() }
    }
}

/// A handed-out message is overdue at `now` when more than `timeout` has
/// passed since it was handed out at `delivered_at` (all in nanoseconds).
pub open spec fn overdue(delivered_at: u128, now: u128, timeout: u128) -> bool {
    now - delivered_at > timeout
}

/// The state of one subscriber of one topic, as the contracts see it.
pub ghost struct SubscriberView {
    /// Messages waiting to be handed out, front first.
    pub pending: Seq<MessageView>,
    /// Messages handed out and not yet settled, by identifier, with the
    /// moment (nanoseconds on the broker's clock) they were handed out.
    pub inflight: Map<u64, (MessageView, u128)>,
}

impl SubscriberView {
    pub open spec fn empty() -> SubscriberView {
        SubscriberView { pending: Seq::empty(), inflight: Map::empty() }
    }

    /// Every message held is held once, under its own identifier, and no
    /// identifier is 0 or beyond the last one the broker issued.
    pub open spec fn valid(self, next_id: u64) -> bool {
        &&& forall|k: u64|
            #[trigger] self.inflight.contains_key(k) ==> self.inflight[k].0.0 == k && 1 <= k
                <= next_id
        &&& forall|i: int|
            0 <= i < self.pending.len() ==> 1 <= #[trigger] self.pending[i].0 <= next_id
                && !self.inflight.contains_key(self.pending[i].0)
        &&& forall|i: int, j: int|
            0 <= i < self.pending.len() && 0 <= j < self.pending.len() && i != j
                ==> #[trigger] self.pending[i].0 != #[trigger] self.pending[j].0
    }

    /// No message was handed out later than `latest`.
    pub open spec fn stamped_by(self, latest: u128) -> bool {
        forall|k: u64| #[trigger] self.inflight.contains_key(k) ==> self.inflight[k].1 <= latest
    }

    /// Valid under `next_id`, with no hand-out later than `latest`.
    pub open spec fn sound(self, next_id: u64, latest: u128) -> bool {
        self.valid(next_id) && self.stamped_by(latest)
    }

    /// A new message appended to the pending queue.
    pub open spec fn published(self, msg: MessageView) -> SubscriberView {
        SubscriberView { pending: self.pending.push(msg), inflight: self.inflight }
    }

    /// The front pending message handed out at `now`, if there is one.
    pub open spec fn dequeued(self, now: u128) -> (SubscriberView, Option<MessageView>) {
        if self.pending.len() > 0 {
            let msg = self.pending[0];
            (
                SubscriberView {
                    pending: self.pending.drop_first(),
                    inflight: self.inflight.insert(msg.0, (msg, now)),
                },
                Some(msg),
            )
        } else {
            (self, None)
        }
    }

    /// The handed-out message `id` settled for good, if it is handed out.
    pub open spec fn acked(self, id: u64) -> (SubscriberView, bool) {
        if self.inflight.contains_key(id) {
            (SubscriberView { pending: self.pending, inflight: self.inflight.remove(id) }, true)
        } else {
            (self, false)
        }
    }

    /// The handed-out message `id` put back at the end of the pending queue,
    /// if it is handed out.
    pub open spec fn nacked(self, id: u64) -> (SubscriberView, bool) {
        if self.inflight.contains_key(id) {
            (
                SubscriberView {
                    pending: self.pending.push(self.inflight[id].0),
                    inflight: self.inflight.remove(id),
                },
                true,
            )
        } else {
            (self, false)
        }
    }

    /// The identifiers of the handed-out messages overdue at `now`.
    pub open spec fn overdue_ids(self, now: u128, timeout: u128) -> Set<u64> {
        self.inflight.dom().filter(|k: u64| overdue(self.inflight[k].1, now, timeout))
    }

    /// `next` is this state with every overdue message moved back to the end
    /// of the pending queue, in some order, and nothing else changed.
    pub open spec fn redelivered(self, next: SubscriberView, now: u128, timeout: u128) -> bool {
        let due = self.overdue_ids(now, timeout);
        &&& next.inflight == self.inflight.remove_keys(due)
        &&& exists|order: Seq<u64>|
            #![trigger order.to_set()]
            {
                &&& order.no_duplicates()
                &&& order.to_set() == due
                &&& next.pending == self.pending + order.map_values(
                    |k: u64| self.inflight[k].0,
                )
            }
    }
}

/// Every operation on a subscriber keeps its state valid; a fresh
/// identifier may be published to it once the broker has issued it.
pub proof fn lemma_sub_ops_valid(sv: SubscriberView, n: u64, now: u128, id: u64, body: Seq<char>)
    requires
        sv.valid(n),
    ensures
        sv.dequeued(now).0.valid(n),
        sv.acked(id).0.valid(n),
        sv.nacked(id).0.valid(n),
        n < u64::MAX ==> sv.valid((n + 1) as u64),
        n < u64::MAX ==> sv.published(((n + 1) as u64, body)).valid((n + 1) as u64),
{
    if sv.pending.len() > 0 {
        let sv1 = sv.dequeued(now).0;
        assert forall|k: int| 0 <= k < sv1.pending.len() implies 1 <= #[trigger] sv1.pending[k].0 <= n
            && !sv1.inflight.contains_key(sv1.pending[k].0) by {
            assert(sv1.pending[k] == sv.pending[k + 1]);
        }
        assert forall|a: int, c: int|
            0 <= a < sv1.pending.len() && 0 <= c < sv1.pending.len() && a != c implies #[trigger] sv1.pending[a].0
            != #[trigger] sv1.pending[c].0 by {
            assert(sv1.pending[a] == sv.pending[a + 1]);
            assert(sv1.pending[c] == sv.pending[c + 1]);
        }
    }
    if sv.inflight.contains_key(id) {
        let sv2 = sv.nacked(id).0;
        assert forall|k: int| 0 <= k < sv2.pending.len() implies 1 <= #[trigger] sv2.pending[k].0 <= n
            && !sv2.inflight.contains_key(sv2.pending[k].0) by {
            if k < sv.pending.len() {
                assert(sv2.pending[k] == sv.pending[k]);
            }
        }
        assert forall|a: int, c: int|
            0 <= a < sv2.pending.len() && 0 <= c < sv2.pending.len() && a != c implies #[trigger] sv2.pending[a].0
            != #[trigger] sv2.pending[c].0 by {
            if a < sv.pending.len() {
                assert(sv2.pending[a] == sv.pending[a]);
            }
            if c < sv.pending.len() {
                assert(sv2.pending[c] == sv.pending[c]);
            }
        }
    }
    if n < u64::MAX {
        let m = n + 1;
        let sv3 = sv.published(((n + 1) as u64, body));
        assert forall|k: int| 0 <= k < sv3.pending.len() implies 1 <= #[trigger] sv3.pending[k].0 <= m
            && !sv3.inflight.contains_key(sv3.pending[k].0) by {
            if k < sv.pending.len() {
                assert(sv3.pending[k] == sv.pending[k]);
            }
        }
        assert forall|a: int, c: int|
            0 <= a < sv3.pending.len() && 0 <= c < sv3.pending.len() && a != c implies #[trigger] sv3.pending[a].0
            != #[trigger] sv3.pending[c].0 by {
            if a < sv.pending.len() {
                assert(sv3.pending[a] == sv.pending[a]);
            }
            if c < sv.pending.len() {
                assert(sv3.pending[c] == sv.pending[c]);
            }
        }
    }
}

/// Settling, putting back and publishing never record a hand-out; handing
/// out at `now` records one no later than any bound at least `now`; a bound
/// may always be raised.
pub proof fn lemma_sub_ops_stamped(sv: SubscriberView, latest: u128, now: u128, id: u64, msg: MessageView, higher: u128)
    requires
        sv.stamped_by(latest),
    ensures
        now <= latest ==> sv.dequeued(now).0.stamped_by(latest),
        sv.acked(id).0.stamped_by(latest),
        sv.nacked(id).0.stamped_by(latest),
        sv.published(msg).stamped_by(latest),
        latest <= higher ==> sv.stamped_by(higher),
{
}

/// Moving overdue messages back keeps a subscriber's state valid and
/// records no hand-out.
pub proof fn lemma_redelivered_valid(sv: SubscriberView, next: SubscriberView, n: u64, now: u128, timeout: u128)
    requires
        sv.valid(n),
        sv.redelivered(next, now, timeout),
    ensures
        next.valid(n),
        forall|latest: u128| sv.stamped_by(latest) ==> #[trigger] next.stamped_by(latest),
{
    let due = sv.overdue_ids(now, timeout);
    let order = choose|order: Seq<u64>|
        #![trigger order.to_set()]
        {
            &&& order.no_duplicates()
            &&& order.to_set() == due
            &&& next.pending == sv.pending + order.map_values(|k: u64| sv.inflight[k].0)
        };
    let len0 = sv.pending.len();
    assert forall|i: int| 0 <= i < next.pending.len() implies 1 <= #[trigger] next.pending[i].0 <= n
        && !next.inflight.contains_key(next.pending[i].0) by {
        if i >= len0 {
            let k = order[i - len0];
            assert(order.to_set().contains(k));
            assert(next.pending[i] == sv.inflight[k].0);
        }
    }
    assert forall|a: int, c: int|
        0 <= a < next.pending.len() && 0 <= c < next.pending.len() && a != c implies #[trigger] next.pending[a].0
        != #[trigger] next.pending[c].0 by {
        if a >= len0 {
            let ka = order[a - len0];
            assert(order.to_set().contains(ka));
            assert(next.pending[a] == sv.inflight[ka].0);
        }
        if c >= len0 {
            let kc = order[c - len0];
            assert(order.to_set().contains(kc));
            assert(next.pending[c] == sv.inflight[kc].0);
        }
    }
}

/// The state of one subscriber: its own queue and its own handed-out table.
pub struct SubscriberState {
    pub pending: VecDeque<Message>,
    pub inflight: HashMap<u64, (Message, u128)>,
}

impl View for SubscriberState {
    type V = SubscriberView;

    open spec fn view(&self) -> SubscriberView {
        SubscriberView {
            pending: self.pending@.map_values(|m: Message| m@),
            inflight: self.inflight@.map_values(|e: (Message, u128)| (e.0@, e.1)),
        }
    }
}

impl SubscriberState {
    /// A subscriber with nothing pending and nothing handed out.
    pub fn new() -> (s: SubscriberState)
        ensures
            s@ == SubscriberView::empty(),
    {
        let s = SubscriberState { pending: VecDeque::new(), inflight: HashMap::new() };
        assert(s@.pending =~= Seq::<MessageView>::empty());
        assert(s@.inflight =~= Map::<u64, (MessageView, u128)>::empty());
        s
    }

    fn enqueue(&mut self, msg: Message)
        ensures
            final(self)@ == old(self)@.published(msg@),
    {
        self.pending.push_back(msg);
        assert(self@.pending =~= old(self)@.pending.push(msg@));
    }

    fn take_next(&mut self, now: u128) -> (r: Option<Message>)
        requires
            forall|k: u64| #[trigger]
                old(self)@.inflight.contains_key(k) ==> old(self)@.inflight[k].0.0 == k,
        ensures
            (final(self)@, match r {
                Some(m) => Some(m@),
                None => None::<MessageView>,
            }) == old(self)@.dequeued(now),
    {
        match self.pending.pop_front() {
            None => None,
            Some(msg) => {
                let copy = msg.duplicate();
                self.inflight.insert(msg.id, (copy, now));
                assert(self@.pending =~= old(self)@.pending.drop_first());
                assert(self@.inflight =~= old(self)@.inflight.insert(msg.id, (msg@, now)));
                Some(msg)
            },
        }
    }

    fn acknowledge(&mut self, id: u64) -> (r: bool)
        ensures
            (final(self)@, r) == old(self)@.acked(id),
    {
        let removed = self.inflight.remove(&id);
        assert(self@.inflight =~= old(self)@.inflight.remove(id));
        match removed {
            Some(_) => true,
            None => {
                assert(old(self)@.inflight.remove(id) =~= old(self)@.inflight);
                assert(self@ == old(self)@);
                false
            },
        }
    }

    fn reject(&mut self, id: u64) -> (r: bool)
        ensures
            (final(self)@, r) == old(self)@.nacked(id),
    {
        let removed = self.inflight.remove(&id);
        assert(self@.inflight =~= old(self)@.inflight.remove(id));
        match removed {
            Some(entry) => {
                let (msg, _at) = entry;
                self.pending.push_back(msg);
                assert(self@.pending =~= old(self)@.pending.push(old(self)@.inflight[id].0));
                true
            },
            None => {
                assert(old(self)@.inflight.remove(id) =~= old(self)@.inflight);
                assert(self@ == old(self)@);
                false
            },
        }
    }

    /// Moves every handed-out message that is overdue at `now` back to the
    /// end of the pending queue.
    fn redeliver_overdue(&mut self, now: u128, timeout: u128)
        ensures
            old(self)@.redelivered(final(self)@, now, timeout),
    {
        let due = self.overdue_list(now, timeout);
        let ghost start = self@;
        let ghost ids = start.overdue_ids(now, timeout);
        let mut j: usize = 0;
        assert(due@.take(0).to_set() =~= Set::<u64>::empty());
        assert(start.inflight.remove_keys(Set::<u64>::empty()) =~= start.inflight);
        assert(start.pending + due@.take(0).map_values(|k: u64| start.inflight[k].0)
            =~= start.pending);
        while j < due.len()
            invariant
                j <= due@.len(),
                due@.no_duplicates(),
                due@.to_set() == ids,
                ids == start.overdue_ids(now, timeout),
                self@.inflight == start.inflight.remove_keys(due@.take(j as int).to_set()),
                self@.pending == start.pending + due@.take(j as int).map_values(
                    |k: u64| start.inflight[k].0,
                ),
            decreases due@.len() - j,
        {
            let id = due[j];
            let ghost before = self@;
            let ghost done = due@.take(j as int).to_set();
            assert(due@.to_set().contains(id));
            assert(start.inflight.contains_key(id));
            assert(!done.contains(id)) by {
                if done.contains(id) {
                    let a = choose|a: int| 0 <= a < j && due@.take(j as int)[a] == id;
                    assert(due@[a] == due@[j as int]);
                }
            }
            assert(before.inflight.contains_key(id));
            assert(before.inflight[id] == start.inflight[id]);
            let ghost raw = self.inflight@;
            let removed = self.inflight.remove(&id);
            match removed {
                Some(entry) => {
                    assert(entry == raw[id]);
                    let (msg, _at) = entry;
                    assert(msg@ == start.inflight[id].0);
                    self.pending.push_back(msg);
                },
                None => {
                    assert(false);
                },
            }
            j = j + 1;
            proof {
                assert(due@.take(j as int) =~= due@.take(j - 1).push(id));
                let now_taken = due@.take(j as int);
                assert forall|x: u64| #[trigger] now_taken.to_set().contains(x) <==> done.insert(
                    id,
                ).contains(x) by {
                    if now_taken.to_set().contains(x) {
                        let a = choose|a: int| 0 <= a < now_taken.len() && now_taken[a] == x;
                        if a < j - 1 {
                            assert(due@.take(j - 1)[a] == x);
                        }
                    }
                    if done.contains(x) {
                        let prev = due@.take(j - 1);
                        let a = choose|a: int| 0 <= a < prev.len() && #[trigger] prev[a] == x;
                        assert(now_taken[a] == x);
                    }
                    if x == id {
                        assert(now_taken[j - 1] == x);
                    }
                }
                assert(now_taken.to_set() =~= done.insert(id));
                assert(self@.inflight =~= before.inflight.remove(id));
                assert(start.inflight.remove_keys(done.insert(id)) =~= start.inflight.remove_keys(
                    done,
                ).remove(id));
                assert(self@.pending =~= before.pending.push(start.inflight[id].0));
                assert(self@.inflight =~= start.inflight.remove_keys(due@.take(j as int).to_set()));
                assert(due@.take(j as int).map_values(|k: u64| start.inflight[k].0)
                    =~= due@.take(j - 1).map_values(|k: u64| start.inflight[k].0).push(
                    start.inflight[id].0,
                ));
                assert(self@.pending =~= start.pending + due@.take(j as int).map_values(
                    |k: u64| start.inflight[k].0,
                ));
            }
        }
        assert(due@.take(due@.len() as int) =~= due@);
        assert(start.redelivered(self@, now, timeout));
    }

    /// The identifiers of the handed-out messages that are overdue at `now`,
    /// each once, in the order in which the table is walked.
    fn overdue_list(&self, now: u128, timeout: u128) -> (due: Vec<u64>)
        ensures
            due@.no_duplicates(),
            due@.to_set() == self@.overdue_ids(now, timeout),
    {
        let mut due: Vec<u64> = Vec::new();
        let ghost table = self.inflight@;
        let ghost keys = vstd::std_specs::iter::IteratorSpec::remaining(&vstd::std_specs::hash::spec_keys_iter(&self.inflight));
        let ghost mut walked: int = 0;
        for k in it: self.inflight.keys()
            invariant
                table == self.inflight@,
                it.seq() == keys,
                walked == it.index(),
                it.seq().no_duplicates(),
                it.seq().unref().to_set() == table.dom(),
                due@.no_duplicates(),
                forall|a: int|
                    0 <= a < due@.len() ==> table.contains_key(#[trigger] due@[a]) && overdue(
                        table[due@[a]].1,
                        now,
                        timeout,
                    ),
                forall|a: int|
                    0 <= a < due@.len() ==> exists|i: int|
                        0 <= i < walked && *keys[i] == #[trigger] due@[a],
                forall|i: int|
                    0 <= i < walked && overdue(table[*keys[i]].1, now, timeout)
                        ==> due@.contains(*#[trigger] keys[i]),
        {
            let key: u64 = *k;
            let ghost old_due = due@;
            assert(key == *keys[walked]);
            let entry = self.inflight.get(&key);
            match entry {
                Some(e) => {
                    let at: u128 = e.1;
                    if now > at && now - at > timeout {
                        proof {
                            assert forall|a: int| 0 <= a < due@.len() implies due@[a] != key by {
                                let i = choose|i: int|
                                    0 <= i < walked && *keys[i] == #[trigger] due@[a];
                                assert(keys[i] != keys[walked]);
                            }
                        }
                        due.push(key);
                        proof {
                            assert(due@[due@.len() - 1] == key);
                            assert forall|a: int| 0 <= a < due@.len() implies exists|i: int|
                                0 <= i < walked + 1 && *keys[i] == #[trigger] due@[a] by {
                                if a == due@.len() - 1 {
                                    assert(*keys[walked] == due@[a]);
                                } else {
                                    assert(due@[a] == old_due[a]);
                                }
                            }
                        }
                    }
                    assert forall|i: int|
                        0 <= i < walked + 1 && overdue(table[*keys[i]].1, now, timeout)
                            implies due@.contains(*#[trigger] keys[i]) by {
                        if i < walked {
                            assert(old_due.contains(*keys[i]));
                            let a = choose|a: int| 0 <= a < old_due.len() && old_due[a] == *keys[i];
                            assert(due@[a] == *keys[i]);
                        } else {
                            assert(table[key] == *e);
                            assert(due@[due@.len() - 1] == key);
                        }
                    }
                },
                None => {
                    assert(it.seq().unref().to_set().contains(key));
                    assert(false);
                },
            }
            proof {
                walked = walked + 1;
            }
        }
        proof {
            let ids = self@.overdue_ids(now, timeout);
            assert forall|k: u64| #[trigger] due@.to_set().contains(k) <==> ids.contains(k) by {
                if ids.contains(k) {
                    assert(keys.unref().to_set().contains(k));
                    let i = choose|i: int| 0 <= i < keys.len() && keys.unref()[i] == k;
                    assert(*keys[i] == k);
                }
                if due@.to_set().contains(k) {
                    let a = choose|a: int| 0 <= a < due@.len() && due@[a] == k;
                    assert(table.contains_key(due@[a]));
                }
            }
            assert(due@.to_set() =~= ids);
        }
        due
    }
}


/// A topic: its subscribers, each under its own name.
pub struct Topic {
    pub subscribers: Vec<(String, SubscriberState)>,
}

impl Topic {
    /// The subscribers as (name, state) entries, in the order they joined.
    pub open spec fn entries(&self) -> Seq<(Seq<char>, SubscriberView)> {
        self.subscribers@.map_values(|e: (String, SubscriberState)| (e.0@, e.1@))
    }
}

impl View for Topic {
    type V = Map<Seq<char>, SubscriberView>;

    open spec fn view(&self) -> Map<Seq<char>, SubscriberView> {
        keyed(self.entries())
    }
}

impl Topic {
    /// A topic with no subscribers.
    pub fn new() -> (t: Topic)
        ensures
            t@ == Map::<Seq<char>, SubscriberView>::empty(),
            t.subscribers@.len() == 0,
            distinct_keys(t.entries()),
    {
        let t = Topic { subscribers: Vec::new() };
        proof {
            assert(t.entries() =~= Seq::<(Seq<char>, SubscriberView)>::empty());
            lemma_keyed_empty::<SubscriberView>();
        }
        t
    }

    /// The place of the subscriber called `name`, if there is one.
    fn find(&self, name: &str) -> (r: Option<usize>)
        requires
            distinct_keys(self.entries()),
        ensures
            match r {
                Some(j) => j < self.subscribers@.len() && self.subscribers@[j as int].0@ == name@,
                None => !self@.contains_key(name@),
            },
    {
        let key = name.to_owned();
        let n = self.subscribers.len();
        for j in 0..n
            invariant
                n == self.subscribers@.len(),
                key@ == name@,
                forall|k: int| 0 <= k < j ==> (#[trigger] self.subscribers@[k]).0@ != name@,
        {
            if self.subscribers[j].0 == key {
                return Some(j);
            }
        }
        proof {
            if self@.contains_key(name@) {
                let k = lemma_keyed_key(self.entries(), name@);
                assert(self.subscribers@[k].0@ == name@);
            }
        }
        None
    }
}

/// The larger of two clock readings.
pub open spec fn later(a: u128, b: u128) -> u128 {
    if a < b {
        b
    } else {
        a
    }
}

/// The broker as the contracts see it: for each topic name, the state of
/// each of its subscribers by name; the last message identifier issued; the
/// notifier and the clock origin; the latest hand-out time recorded; and how
/// many times the notifier has been woken.
pub ghost struct BrokerView {
    pub topics: Map<Seq<char>, Map<Seq<char>, SubscriberView>>,
    pub next_id: u64,
    pub notifier: Arc<Notify>,
    pub epoch: Instant,
    pub latest_handout: u128,
    pub wakeups: nat,
}

impl BrokerView {
    /// Topic `t` exists and has a subscriber `s`.
    pub open spec fn has(self, t: Seq<char>, s: Seq<char>) -> bool {
        self.topics.contains_key(t) && self.topics[t].contains_key(s)
    }

    /// This broker with the state of subscriber `s` of topic `t` replaced.
    pub open spec fn with_sub(self, t: Seq<char>, s: Seq<char>, sv: SubscriberView) -> BrokerView {
        BrokerView { topics: self.topics.insert(t, self.topics[t].insert(s, sv)), ..self }
    }

    /// Putting back a subscriber's own state changes nothing.
    pub proof fn lemma_with_same_sub(self, t: Seq<char>, s: Seq<char>)
        requires
            self.has(t, s),
        ensures
            self.with_sub(t, s, self.topics[t][s]) == self,
    {
        assert(self.topics[t].insert(s, self.topics[t][s]) =~= self.topics[t]);
        assert(self.topics.insert(t, self.topics[t]) =~= self.topics);
    }

    /// Every subscriber state is valid under the last identifier issued.
    pub open spec fn valid(self) -> bool {
        forall|t: Seq<char>, s: Seq<char>|
            #![trigger self.topics[t][s]]
            self.has(t, s) ==> self.topics[t][s].valid(self.next_id)
    }

    /// Publishing `body` on topic `t`: the next identifier is issued, and if
    /// the topic exists every one of its subscribers gets the message at the
    /// end of its pending queue and the notifier is woken once. The
    /// identifier is returned either way.
    pub open spec fn published(self, t: Seq<char>, body: Seq<char>) -> (BrokerView, u64) {
        let id = (self.next_id + 1) as u64;
        let msg = (id, body);
        (
            BrokerView {
                topics: if self.topics.contains_key(t) {
                    self.topics.insert(t, self.topics[t].map_values(|sv: SubscriberView| sv.published(msg)))
                } else {
                    self.topics
                },
                next_id: id,
                wakeups: if self.topics.contains_key(t) {
                    self.wakeups + 1
                } else {
                    self.wakeups
                },
                ..self
            },
            id,
        )
    }

    /// Subscribing `s` to `t`: the topic and the subscriber are created if
    /// they do not exist; an existing subscriber keeps its state.
    pub open spec fn subscribed(self, t: Seq<char>, s: Seq<char>) -> BrokerView {
        if self.has(t, s) {
            self
        } else if self.topics.contains_key(t) {
            BrokerView {
                topics: self.topics.insert(t, self.topics[t].insert(s, SubscriberView::empty())),
                ..self
            }
        } else {
            BrokerView {
                topics: self.topics.insert(t, Map::empty().insert(s, SubscriberView::empty())),
                ..self
            }
        }
    }

    /// Handing out the front pending message of subscriber `s` of topic `t`
    /// at `now`, which becomes the latest hand-out time if it is later than
    /// the one recorded; nothing happens when the subscriber does not exist
    /// or has nothing pending.
    pub open spec fn dequeued(self, t: Seq<char>, s: Seq<char>, now: u128) -> (BrokerView, Option<MessageView>) {
        if self.has(t, s) && self.topics[t][s].pending.len() > 0 {
            let (sv, m) = self.topics[t][s].dequeued(now);
            (BrokerView { latest_handout: later(self.latest_handout, now), ..self.with_sub(t, s, sv) }, m)
        } else {
            (self, None)
        }
    }

    /// Settling message `id` for subscriber `s` of topic `t`.
    pub open spec fn acked(self, t: Seq<char>, s: Seq<char>, id: u64) -> (BrokerView, bool) {
        if self.has(t, s) {
            let (sv, ok) = self.topics[t][s].acked(id);
            (self.with_sub(t, s, sv), ok)
        } else {
            (self, false)
        }
    }

    /// Putting message `id` back for subscriber `s` of topic `t`.
    pub open spec fn nacked(self, t: Seq<char>, s: Seq<char>, id: u64) -> (BrokerView, bool) {
        if self.has(t, s) {
            let (sv, ok) = self.topics[t][s].nacked(id);
            (self.with_sub(t, s, sv), ok)
        } else {
            (self, false)
        }
    }

    /// `next` is this broker with every subscriber's overdue messages moved
    /// back to its pending queue, and nothing else changed.
    pub open spec fn redelivered(self, next: BrokerView, now: u128, timeout: u128) -> bool {
        &&& next.next_id == self.next_id
        &&& next.notifier == self.notifier
        &&& next.epoch == self.epoch
        &&& next.latest_handout == self.latest_handout
        &&& next.wakeups == self.wakeups
        &&& next.topics.dom() == self.topics.dom()
        &&& forall|t: Seq<char>|
            #[trigger] self.topics.contains_key(t) ==> next.topics[t].dom() == self.topics[t].dom()
        &&& forall|t: Seq<char>, s: Seq<char>|
            #![trigger next.topics[t][s]]
            self.has(t, s) ==> self.topics[t][s].redelivered(next.topics[t][s], now, timeout)
    }
}

/// What a row of the statistics is to the contracts: topic name, subscriber
/// name, number of pending messages, number of handed-out messages.
pub type StatsRowView = (Seq<char>, Seq<char>, nat, nat);

/// `rows` lists every subscriber of every topic of `m` exactly once, with
/// the length of its pending queue and the size of its handed-out table.
pub open spec fn lists_all_subscribers(m: BrokerView, rows: Seq<StatsRowView>) -> bool {
    &&& forall|k: int|
        #![trigger rows[k]]
        0 <= k < rows.len() ==> {
            &&& m.has(rows[k].0, rows[k].1)
            &&& rows[k].2 == m.topics[rows[k].0][rows[k].1].pending.len()
            &&& rows[k].3 == m.topics[rows[k].0][rows[k].1].inflight.len()
        }
    &&& forall|t: Seq<char>, s: Seq<char>|
        #![trigger m.topics[t].contains_key(s)]
        m.has(t, s) ==> exists|k: int| 0 <= k < rows.len() && #[trigger] rows[k].0 == t && rows[k].1 == s
    &&& forall|k1: int, k2: int|
        0 <= k1 < rows.len() && 0 <= k2 < rows.len() && k1 != k2 ==> (#[trigger] rows[k1]).0 != (
        #[trigger] rows[k2]).0 || rows[k1].1 != rows[k2].1
}

/// The view of statistics rows.
pub open spec fn stats_rows_view(rows: Seq<(String, String, usize, usize)>) -> Seq<StatsRowView> {
    rows.map_values(|e: (String, String, usize, usize)| (e.0@, e.1@, e.2 as nat, e.3 as nat))
}

spec fn lex_lt(p: (int, int), q: (int, int)) -> bool {
    p.0 < q.0 || (p.0 == q.0 && p.1 < q.1)
}

spec fn covered(places: Seq<(int, int)>, a: int, c: int) -> bool {
    exists|k: int| 0 <= k < places.len() && #[trigger] places[k] == (a, c)
}


/// Processing with `roll` succeeds at a fail rate of `fail_rate` in a
/// hundred: `roll % 100` is at least `fail_rate`.
pub open spec fn roll_succeeds(roll: u32, fail_rate: u32) -> bool {
    roll % 100 >= fail_rate
}

/// `rand::random::<u32>()`: a draw from the thread-local random generator.
/// It is random, so nothing is stated of it.
#[verifier::external_body]
fn random_roll() -> u32 {
    rand::random::<u32>()
}

/// The message broker: topics by name, the last message identifier issued,
/// a notifier woken on every publish to an existing topic, the moment the
/// broker was made, against which hand-out times are measured, the latest
/// hand-out time recorded, and a count of the wake-ups so far.
pub struct Broker {
    pub topics: Vec<(String, Topic)>,
    pub next_id: u64,
    pub notifier: Signal,
    pub epoch: Instant,
    pub latest_handout: u128,
}

impl Broker {
    /// The topics as (name, subscribers) entries, in the order they appeared.
    pub open spec fn entries(&self) -> Seq<(Seq<char>, Map<Seq<char>, SubscriberView>)> {
        self.topics@.map_values(|e: (String, Topic)| (e.0@, e.1@))
    }

    /// Topic names are distinct, subscriber names within a topic are
    /// distinct, every subscriber state is valid, and no message was handed
    /// out later than the latest hand-out time recorded.
    pub open spec fn wf(&self) -> bool {
        &&& distinct_keys(self.entries())
        &&& forall|i: int|
            0 <= i < self.topics@.len() ==> distinct_keys(#[trigger] self.topics@[i].1.entries())
        &&& forall|i: int, j: int|
            0 <= i < self.topics@.len() && 0 <= j < self.topics@[i].1.subscribers@.len()
                ==> (#[trigger] self.topics@[i].1.subscribers@[j]).1@.sound(self.next_id, self.latest_handout)
    }
}

impl View for Broker {
    type V = BrokerView;

    open spec fn view(&self) -> BrokerView {
        BrokerView {
            topics: keyed(self.entries()),
            next_id: self.next_id,
            notifier: self.notifier.notifier(),
            epoch: self.epoch,
            latest_handout: self.latest_handout,
            wakeups: self.notifier.wakeups(),
        }
    }
}

/// A well-formed broker's view is valid.
pub proof fn lemma_wf_valid(b: &Broker)
    requires
        b.wf(),
    ensures
        b@.valid(),
{
    assert forall|t: Seq<char>, s: Seq<char>| #![trigger b@.topics[t][s]] b@.has(t, s) implies b@.topics[t][s].valid(b.next_id) by {
        let i = lemma_keyed_key(b.entries(), t);
        let tp = b.topics@[i].1;
        assert(b@.topics[t] == tp@);
        let j = lemma_keyed_key(tp.entries(), s);
        assert(b.topics@[i].1.subscribers@[j].1@.sound(b.next_id, b.latest_handout));
    }
}

/// Replacing the state of the subscriber at place `si` of the topic at
/// place `ti` with a valid one keeps the broker well formed and replaces
/// that subscriber's state in the view.
proof fn lemma_replace_sub(b0: &Broker, b1: &Broker, ti: int, si: int)
    requires
        b0.wf(),
        0 <= ti < b0.topics@.len(),
        0 <= si < b0.topics@[ti].1.subscribers@.len(),
        b1.next_id == b0.next_id,
        b1.topics@.len() == b0.topics@.len(),
        forall|k: int| 0 <= k < b0.topics@.len() && k != ti ==> b1.topics@[k] == b0.topics@[k],
        b1.topics@[ti].0 == b0.topics@[ti].0,
        b1.topics@[ti].1.subscribers@.len() == b0.topics@[ti].1.subscribers@.len(),
        forall|k: int|
            0 <= k < b0.topics@[ti].1.subscribers@.len() && k != si
                ==> b1.topics@[ti].1.subscribers@[k] == b0.topics@[ti].1.subscribers@[k],
        b1.topics@[ti].1.subscribers@[si].0 == b0.topics@[ti].1.subscribers@[si].0,
        b1.notifier == b0.notifier,
        b1.epoch == b0.epoch,
        b1.latest_handout == b0.latest_handout,
        b1.topics@[ti].1.subscribers@[si].1@.sound(b0.next_id, b0.latest_handout),
    ensures
        b1.wf(),
        b0@.has(b0.topics@[ti].0@, b0.topics@[ti].1.subscribers@[si].0@),
        b1@ == b0@.with_sub(
            b0.topics@[ti].0@,
            b0.topics@[ti].1.subscribers@[si].0@,
            b1.topics@[ti].1.subscribers@[si].1@,
        ),
{
    let t = b0.topics@[ti].0@;
    let s = b0.topics@[ti].1.subscribers@[si].0@;
    let sv = b1.topics@[ti].1.subscribers@[si].1@;
    let tp0 = b0.topics@[ti].1;
    let tp1 = b1.topics@[ti].1;
    assert(distinct_keys(tp0.entries()));
    assert(tp1.entries() =~= tp0.entries().update(si, (s, sv)));
    lemma_keyed_update(tp0.entries(), si, sv);
    lemma_keyed_at(tp0.entries(), si);
    lemma_keyed_at(b0.entries(), ti);
    assert(b1.entries() =~= b0.entries().update(ti, (t, tp1@)));
    lemma_keyed_update(b0.entries(), ti, tp1@);
    assert forall|i: int| 0 <= i < b1.topics@.len() implies distinct_keys(#[trigger] b1.topics@[i].1.entries()) by {
        if i != ti {
            assert(b1.topics@[i] == b0.topics@[i]);
        }
    }
    assert forall|i: int, j: int|
        0 <= i < b1.topics@.len() && 0 <= j < b1.topics@[i].1.subscribers@.len()
            implies (#[trigger] b1.topics@[i].1.subscribers@[j]).1@.sound(b1.next_id, b1.latest_handout) by {
        if i != ti {
            assert(b1.topics@[i] == b0.topics@[i]);
            assert(b0.topics@[i].1.subscribers@[j].1@.sound(b0.next_id, b0.latest_handout));
        } else if j != si {
            assert(b0.topics@[i].1.subscribers@[j].1@.sound(b0.next_id, b0.latest_handout));
        }
    }
    assert(b1@.topics =~= b0@.topics.insert(t, b0@.topics[t].insert(s, sv)));
}

impl Broker {
    /// An empty broker: no topics, no identifier issued yet, no hand-out
    /// recorded, and its notifier never woken.
    pub fn new() -> (b: Broker)
        ensures
            b.wf(),
            b@.topics == Map::<Seq<char>, Map<Seq<char>, SubscriberView>>::empty(),
            b@.next_id == 0,
            b@.latest_handout == 0,
            b@.wakeups == 0,
    {
        let b = Broker {
            topics: Vec::new(),
            next_id: 0,
            notifier: Signal::new(),
            epoch: Instant::now(),
            latest_handout: 0,
        };
        proof {
            assert(b.entries() =~= Seq::<(Seq<char>, Map<Seq<char>, SubscriberView>)>::empty());
            lemma_keyed_empty::<Map<Seq<char>, SubscriberView>>();
        }
        b
    }

    /// The place of the topic called `name`, if there is one.
    fn find_topic(&self, name: &str) -> (r: Option<usize>)
        requires
            distinct_keys(self.entries()),
        ensures
            match r {
                Some(i) => i < self.topics@.len() && self.topics@[i as int].0@ == name@,
                None => !self@.topics.contains_key(name@),
            },
    {
        let key = name.to_owned();
        let n = self.topics.len();
        for i in 0..n
            invariant
                n == self.topics@.len(),
                key@ == name@,
                forall|k: int| 0 <= k < i ==> (#[trigger] self.topics@[k]).0@ != name@,
        {
            if self.topics[i].0 == key {
                return Some(i);
            }
        }
        proof {
            if self@.topics.contains_key(name@) {
                let k = lemma_keyed_key(self.entries(), name@);
                assert(self.topics@[k].0@ == name@);
            }
        }
        None
    }

    /// The places of subscriber `sub` of topic `topic`, if both exist.
    fn locate(&self, topic: &str, sub: &str) -> (r: Option<(usize, usize)>)
        requires
            self.wf(),
        ensures
            match r {
                Some((i, j)) => {
                    &&& i < self.topics@.len()
                    &&& j < self.topics@[i as int].1.subscribers@.len()
                    &&& self.topics@[i as int].0@ == topic@
                    &&& self.topics@[i as int].1.subscribers@[j as int].0@ == sub@
                },
                None => !self@.has(topic@, sub@),
            },
    {
        match self.find_topic(topic) {
            None => None,
            Some(i) => {
                proof {
                    lemma_keyed_at(self.entries(), i as int);
                }
                match self.topics[i].1.find(sub) {
                    None => None,
                    Some(j) => Some((i, j)),
                }
            },
        }
    }

    /// Hands out the front pending message of subscriber `sub` of `topic`,
    /// recording it as handed out at `now` (nanoseconds on the broker's
    /// clock). Nothing happens, and `None` comes back, when the topic or the
    /// subscriber does not exist or nothing is pending.
    pub fn dequeue_at(&mut self, topic: &str, sub: &str, now: u128) -> (r: Option<Message>)
        requires
            old(self).wf(),
        ensures
            final(self).wf(),
            (final(self)@, match r {
                Some(m) => Some(m@),
                None => None::<MessageView>,
            }) == old(self)@.dequeued(topic@, sub@, now),
    {
        match self.locate(topic, sub) {
            None => None,
            Some((i, j)) => {
                proof {
                    lemma_keyed_at(self.entries(), i as int);
                    lemma_keyed_at(self.topics@[i as int].1.entries(), j as int);
                }
                if self.topics[i].1.subscribers[j].1.pending.len() == 0 {
                    return None;
                }
                let ghost start = *self;
                if self.latest_handout < now {
                    self.latest_handout = now;
                }
                let ghost b0 = *self;
                proof {
                    assert forall|a: int, c: int|
                        0 <= a < b0.topics@.len() && 0 <= c < b0.topics@[a].1.subscribers@.len()
                            implies (#[trigger] b0.topics@[a].1.subscribers@[c]).1@.sound(b0.next_id, b0.latest_handout) by {
                        let sv = start.topics@[a].1.subscribers@[c].1@;
                        assert(sv.sound(start.next_id, start.latest_handout));
                        lemma_sub_ops_stamped(sv, start.latest_handout, now, 0, (0, Seq::empty()), b0.latest_handout);
                    }
                    assert(b0.entries() == start.entries());
                    assert(b0.wf());
                }
                let st = &mut self.topics[i].1.subscribers[j].1;
                let r = st.take_next(now);
                proof {
                    let sv0 = b0.topics@[i as int].1.subscribers@[j as int].1@;
                    lemma_sub_ops_valid(sv0, b0.next_id, now, 0, Seq::empty());
                    lemma_sub_ops_stamped(sv0, b0.latest_handout, now, 0, (0, Seq::empty()), b0.latest_handout);
                    lemma_replace_sub(&b0, self, i as int, j as int);
                }
                r
            },
        }
    }

    /// Settles message `msg_id` of subscriber `sub` of `topic` for good.
    /// Returns whether the message was handed out to that subscriber (and
    /// is now gone); otherwise nothing changes.
    pub fn ack(&mut self, topic: &str, sub: &str, msg_id: u64) -> (r: bool)
        requires
            old(self).wf(),
        ensures
            final(self).wf(),
            (final(self)@, r) == old(self)@.acked(topic@, sub@, msg_id),
    {
        match self.locate(topic, sub) {
            None => false,
            Some((i, j)) => {
                let ghost b0 = *self;
                let st = &mut self.topics[i].1.subscribers[j].1;
                let r = st.acknowledge(msg_id);
                proof {
                    let sv0 = b0.topics@[i as int].1.subscribers@[j as int].1@;
                    assert(sv0.valid(b0.next_id));
                    lemma_sub_ops_valid(sv0, b0.next_id, 0, msg_id, Seq::empty());
                    lemma_replace_sub(&b0, self, i as int, j as int);
                    lemma_keyed_at(b0.entries(), i as int);
                    lemma_keyed_at(b0.topics@[i as int].1.entries(), j as int);
                }
                r
            },
        }
    }

    /// Puts message `msg_id` of subscriber `sub` of `topic` back at the end
    /// of that subscriber's pending queue. Returns whether the message was
    /// handed out to that subscriber; otherwise nothing changes.
    pub fn nack(&mut self, topic: &str, sub: &str, msg_id: u64) -> (r: bool)
        requires
            old(self).wf(),
        ensures
            final(self).wf(),
            (final(self)@, r) == old(self)@.nacked(topic@, sub@, msg_id),
    {
        match self.locate(topic, sub) {
            None => false,
            Some((i, j)) => {
                let ghost b0 = *self;
                let st = &mut self.topics[i].1.subscribers[j].1;
                let r = st.reject(msg_id);
                proof {
                    let sv0 = b0.topics@[i as int].1.subscribers@[j as int].1@;
                    assert(sv0.valid(b0.next_id));
                    lemma_sub_ops_valid(sv0, b0.next_id, 0, msg_id, Seq::empty());
                    lemma_replace_sub(&b0, self, i as int, j as int);
                    lemma_keyed_at(b0.entries(), i as int);
                    lemma_keyed_at(b0.topics@[i as int].1.entries(), j as int);
                }
                r
            },
        }
    }

    /// Whether subscriber `sub` of `topic` exists and has a message pending.
    pub fn has_pending(&self, topic: &str, sub: &str) -> (r: bool)
        requires
            self.wf(),
        ensures
            r == (self@.has(topic@, sub@) && self@.topics[topic@][sub@].pending.len() > 0),
    {
        match self.locate(topic, sub) {
            None => false,
            Some((i, j)) => {
                proof {
                    lemma_keyed_at(self.entries(), i as int);
                    lemma_keyed_at(self.topics@[i as int].1.entries(), j as int);
                }
                self.topics[i].1.subscribers[j].1.pending.len() > 0
            },
        }
    }

    /// Issues the next message identifier: one more than the last.
    fn next_message_id(&mut self) -> (id: u64)
        requires
            old(self).next_id < u64::MAX,
        ensures
            id == old(self).next_id + 1,
            final(self).next_id == id,
            final(self).topics == old(self).topics,
            final(self).notifier == old(self).notifier,
            final(self).epoch == old(self).epoch,
            final(self).latest_handout == old(self).latest_handout,
    {
        self.next_id = self.next_id + 1;
        self.next_id
    }

    /// Publishes `body` on `topic`: issues the next identifier and, if the
    /// topic exists, appends the message to the pending queue of every one
    /// of its subscribers and wakes the tasks waiting on the notifier.
    /// Returns the identifier, which is issued even when the topic does not
    /// exist. The first identifier is 1, so 0 is never issued.
    pub fn publish(&mut self, topic: &str, body: String) -> (id: u64)
        requires
            old(self).wf(),
            old(self).next_id < u64::MAX,
        ensures
            final(self).wf(),
            (final(self)@, id) == old(self)@.published(topic@, body@),
    {
        let ghost b0 = *self;
        let ghost body_view = body@;
        let id = self.next_message_id();
        let msg = Message { id, body };
        let ghost mv = msg@;
        proof {
            assert forall|a: int, c: int|
                0 <= a < self.topics@.len() && 0 <= c < self.topics@[a].1.subscribers@.len()
                    implies (#[trigger] self.topics@[a].1.subscribers@[c]).1@.sound(self.next_id, self.latest_handout) by {
                lemma_sub_ops_valid(b0.topics@[a].1.subscribers@[c].1@, b0.next_id, 0, 0, body_view);
            }
            assert(self.entries() == b0.entries());
        }
        match self.find_topic(topic) {
            None => {
                assert(self@.topics =~= b0@.published(topic@, body_view).0.topics);
            },
            Some(i) => {
                let ghost b1 = *self;
                let n = self.topics[i].1.subscribers.len();
                for j in 0..n
                    invariant
                        msg@ == mv,
                        self.notifier == b1.notifier,
                        self.epoch == b1.epoch,
                        self.latest_handout == b1.latest_handout,
                        i < b1.topics@.len(),
                        n == b1.topics@[i as int].1.subscribers@.len(),
                        self.next_id == b1.next_id,
                        self.topics@.len() == b1.topics@.len(),
                        forall|k: int|
                            0 <= k < b1.topics@.len() && k != i ==> self.topics@[k] == b1.topics@[k],
                        self.topics@[i as int].0 == b1.topics@[i as int].0,
                        self.topics@[i as int].1.subscribers@.len() == n,
                        forall|k: int|
                            0 <= k < n ==> (#[trigger] self.topics@[i as int].1.subscribers@[k]).0
                                == b1.topics@[i as int].1.subscribers@[k].0 && self.topics@[i as int].1.subscribers@[k].1@
                                == if k < j {
                                b1.topics@[i as int].1.subscribers@[k].1@.published(mv)
                            } else {
                                b1.topics@[i as int].1.subscribers@[k].1@
                            },
                {
                    let copy = msg.duplicate();
                    let ghost prev = *self;
                    let st = &mut self.topics[i].1.subscribers[j].1;
                    st.enqueue(copy);
                    proof {
                        assert forall|k: int| 0 <= k < n && k != j implies #[trigger] self.topics@[i as int].1.subscribers@[k]
                            == prev.topics@[i as int].1.subscribers@[k] by {}
                        assert(copy@ == mv);
                        assert(prev.topics@[i as int].1.subscribers@[j as int].1@ == b1.topics@[i as int].1.subscribers@[j as int].1@);
                        assert(self.topics@[i as int].1.subscribers@[j as int].1@ == prev.topics@[i as int].1.subscribers@[j as int].1@.published(mv));
                        assert forall|k: int|
                            0 <= k < n implies (#[trigger] self.topics@[i as int].1.subscribers@[k]).0
                                == b1.topics@[i as int].1.subscribers@[k].0 && self.topics@[i as int].1.subscribers@[k].1@
                                == if k < j + 1 {
                                b1.topics@[i as int].1.subscribers@[k].1@.published(mv)
                            } else {
                                b1.topics@[i as int].1.subscribers@[k].1@
                            } by {
                            if k != j {
                                assert(self.topics@[i as int].1.subscribers@[k] == prev.topics@[i as int].1.subscribers@[k]);
                            }
                        }
                    }
                }
                self.notifier.wake();
                proof {
                    let t = b1.topics@[i as int].0@;
                    let tp1 = b1.topics@[i as int].1;
                    let tp2 = self.topics@[i as int].1;
                    let f = |sv: SubscriberView| sv.published(mv);
                    assert(distinct_keys(tp1.entries()));
                    lemma_keyed_related(tp1.entries(), tp2.entries(), |a: SubscriberView, c: SubscriberView| c == a.published(mv));
                    assert(tp2@ =~= tp1@.map_values(f));
                    lemma_keyed_at(b1.entries(), i as int);
                    assert(self.entries() =~= b1.entries().update(i as int, (t, tp2@)));
                    lemma_keyed_update(b1.entries(), i as int, tp2@);
                    assert(self@.topics =~= b0@.published(topic@, body_view).0.topics);
                    assert forall|a: int| 0 <= a < self.topics@.len() implies distinct_keys(#[trigger] self.topics@[a].1.entries()) by {
                        if a != i {
                            assert(self.topics@[a] == b1.topics@[a]);
                        }
                    }
                    assert forall|a: int, c: int|
                        0 <= a < self.topics@.len() && 0 <= c < self.topics@[a].1.subscribers@.len()
                            implies (#[trigger] self.topics@[a].1.subscribers@[c]).1@.sound(self.next_id, self.latest_handout) by {
                        lemma_sub_ops_valid(b0.topics@[a].1.subscribers@[c].1@, b0.next_id, 0, 0, body_view);
                        if a != i {
                            assert(self.topics@[a] == b1.topics@[a]);
                        }
                    }
                }
            },
        }
        id
    }

    /// Subscribes `subscriber` to `topic`, creating the topic and the
    /// subscriber when they do not exist; an existing subscriber keeps its
    /// state, and then nothing changes.
    pub fn subscribe(&mut self, topic: &str, subscriber: &str)
        requires
            old(self).wf(),
        ensures
            final(self).wf(),
            final(self)@ == old(self)@.subscribed(topic@, subscriber@),
    {
        let ghost b0 = *self;
        let ti = match self.find_topic(topic) {
            Some(i) => {
                proof {
                    lemma_keyed_at(b0.entries(), i as int);
                }
                i
            },
            None => {
                let fresh = Topic::new();
                let ghost fresh_view = fresh@;
                self.topics.push((topic.to_owned(), fresh));
                proof {
                    assert(self.entries() =~= b0.entries().push((topic@, fresh_view)));
                    lemma_keyed_push(b0.entries(), topic@, fresh_view);
                    lemma_keyed_at(self.entries(), b0.topics@.len() as int);
                    assert forall|a: int| 0 <= a < self.topics@.len() implies distinct_keys(
                        #[trigger] self.topics@[a].1.entries(),
                    ) by {
                        if a < b0.topics@.len() {
                            assert(self.topics@[a] == b0.topics@[a]);
                        }
                    }
                    assert forall|a: int, c: int|
                        0 <= a < self.topics@.len() && 0 <= c < self.topics@[a].1.subscribers@.len()
                            implies (#[trigger] self.topics@[a].1.subscribers@[c]).1@.valid(self.next_id) by {
                        if a < b0.topics@.len() {
                            assert(self.topics@[a] == b0.topics@[a]);
                            assert(b0.topics@[a].1.subscribers@[c].1@.valid(b0.next_id));
                        }
                    }
                }
                self.topics.len() - 1
            },
        };
        let ghost b1 = *self;
        proof {
            assert(b1.wf());
            assert(b1.topics@[ti as int].0@ == topic@);
            lemma_keyed_at(b1.entries(), ti as int);
            assert(b1@.topics[topic@] == b1.topics@[ti as int].1@);
            if b0@.topics.contains_key(topic@) {
                assert(b1@ == b0@);
            } else {
                assert(b1@.topics == b0@.topics.insert(topic@, Map::empty()));
            }
        }
        let _place = match self.topics[ti].1.find(subscriber) {
            Some(j) => {
                proof {
                    lemma_keyed_at(b1.topics@[ti as int].1.entries(), j as int);
                    assert(b1@.has(topic@, subscriber@));
                    assert(b1@ == b0@.subscribed(topic@, subscriber@));
                }
                j
            },
            None => {
                let fresh = SubscriberState::new();
                let name = subscriber.to_owned();
                let ghost tp1 = b1.topics@[ti as int].1;
                self.topics[ti].1.subscribers.push((name, fresh));
                proof {
                    let tp2 = self.topics@[ti as int].1;
                    assert(tp2.entries() =~= tp1.entries().push((subscriber@, SubscriberView::empty())));
                    lemma_keyed_push(tp1.entries(), subscriber@, SubscriberView::empty());
                    assert(self.entries() =~= b1.entries().update(ti as int, (topic@, tp2@)));
                    lemma_keyed_update(b1.entries(), ti as int, tp2@);
                    lemma_keyed_at(tp2.entries(), tp1.subscribers@.len() as int);
                    assert forall|a: int| 0 <= a < self.topics@.len() implies distinct_keys(
                        #[trigger] self.topics@[a].1.entries(),
                    ) by {
                        if a != ti {
                            assert(self.topics@[a] == b1.topics@[a]);
                        }
                    }
                    assert forall|a: int, c: int|
                        0 <= a < self.topics@.len() && 0 <= c < self.topics@[a].1.subscribers@.len()
                            implies (#[trigger] self.topics@[a].1.subscribers@[c]).1@.valid(self.next_id) by {
                        if a != ti {
                            assert(self.topics@[a] == b1.topics@[a]);
                            assert(b1.topics@[a].1.subscribers@[c].1@.valid(b1.next_id));
                        } else if c < tp1.subscribers@.len() {
                            assert(self.topics@[a].1.subscribers@[c] == tp1.subscribers@[c]);
                            assert(b1.topics@[a].1.subscribers@[c].1@.valid(b1.next_id));
                        } else {
                            assert(self.topics@[a].1.subscribers@[c].1@ == SubscriberView::empty());
                        }
                    }
                    assert(self@.topics =~= b0@.subscribed(topic@, subscriber@).topics);
                }
                self.topics[ti].1.subscribers.len() - 1
            },
        };
    }

    /// Moves, for every subscriber of every topic, each handed-out message
    /// that is overdue at `now` (more than `timeout` nanoseconds since it
    /// was handed out) back to the end of that subscriber's pending queue.
    pub fn redeliver_expired(&mut self, now: u128, timeout: u128)
        requires
            old(self).wf(),
        ensures
            final(self).wf(),
            old(self)@.redelivered(final(self)@, now, timeout),
    {
        let ghost b0 = *self;
        let n = self.topics.len();
        for i in 0..n
            invariant
                n == b0.topics@.len(),
                self.next_id == b0.next_id,
                self.notifier == b0.notifier,
                self.epoch == b0.epoch,
                self.latest_handout == b0.latest_handout,
                self.topics@.len() == n,
                forall|k: int|
                    #![trigger self.topics@[k]]
                    0 <= k < n ==> {
                        &&& self.topics@[k].0 == b0.topics@[k].0
                        &&& self.topics@[k].1.subscribers@.len() == b0.topics@[k].1.subscribers@.len()
                        &&& forall|c: int|
                            #![trigger self.topics@[k].1.subscribers@[c]]
                            0 <= c < b0.topics@[k].1.subscribers@.len() ==> {
                                &&& self.topics@[k].1.subscribers@[c].0 == b0.topics@[k].1.subscribers@[c].0
                                &&& if k < i {
                                    b0.topics@[k].1.subscribers@[c].1@.redelivered(
                                        self.topics@[k].1.subscribers@[c].1@,
                                        now,
                                        timeout,
                                    )
                                } else {
                                    self.topics@[k].1.subscribers@[c] == b0.topics@[k].1.subscribers@[c]
                                }
                            }
                    },
        {
            let m = self.topics[i].1.subscribers.len();
            let ghost b1 = *self;
            for j in 0..m
                invariant
                    n == b0.topics@.len(),
                    i < n,
                    m == b0.topics@[i as int].1.subscribers@.len(),
                    self.next_id == b0.next_id,
                    self.notifier == b0.notifier,
                    self.epoch == b0.epoch,
                    self.latest_handout == b0.latest_handout,
                    self.topics@.len() == n,
                    forall|k: int| 0 <= k < n && k != i ==> #[trigger] self.topics@[k] == b1.topics@[k],
                    self.topics@[i as int].0 == b0.topics@[i as int].0,
                    self.topics@[i as int].1.subscribers@.len() == m,
                    forall|c: int|
                        #![trigger self.topics@[i as int].1.subscribers@[c]]
                        0 <= c < m ==> {
                            &&& self.topics@[i as int].1.subscribers@[c].0 == b0.topics@[i as int].1.subscribers@[c].0
                            &&& if c < j {
                                b0.topics@[i as int].1.subscribers@[c].1@.redelivered(
                                    self.topics@[i as int].1.subscribers@[c].1@,
                                    now,
                                    timeout,
                                )
                            } else {
                                self.topics@[i as int].1.subscribers@[c] == b0.topics@[i as int].1.subscribers@[c]
                            }
                        },
            {
                let ghost prev = *self;
                let st = &mut self.topics[i].1.subscribers[j].1;
                st.redeliver_overdue(now, timeout);
                proof {
                    assert forall|c: int| 0 <= c < m && c != j implies #[trigger] self.topics@[i as int].1.subscribers@[c]
                        == prev.topics@[i as int].1.subscribers@[c] by {}
                    assert forall|k: int| 0 <= k < n && k != i implies #[trigger] self.topics@[k] == b1.topics@[k] by {
                        assert(self.topics@[k] == prev.topics@[k]);
                    }
                }
            }
            proof {
                assert forall|k: int| #![trigger self.topics@[k]] 0 <= k < n && k != i implies self.topics@[k] == b1.topics@[k] by {}
            }
        }
        proof {
            let rel = |sv0: SubscriberView, sv1: SubscriberView| sv0.redelivered(sv1, now, timeout);
            let trel = |m0: Map<Seq<char>, SubscriberView>, m1: Map<Seq<char>, SubscriberView>|
                m1.dom() == m0.dom() && forall|s: Seq<char>| #[trigger] m0.contains_key(s) ==> rel(m0[s], m1[s]);
            assert forall|k: int| 0 <= k < n implies #[trigger] self.entries()[k].0 == b0.entries()[k].0 && trel(
                b0.entries()[k].1,
                self.entries()[k].1,
            ) by {
                let tp0 = b0.topics@[k].1;
                let tp1 = self.topics@[k].1;
                assert(self.topics@[k].0 == b0.topics@[k].0);
                assert forall|c: int| 0 <= c < tp0.entries().len() implies #[trigger] tp1.entries()[c].0 == tp0.entries()[c].0 && rel(
                    tp0.entries()[c].1,
                    tp1.entries()[c].1,
                ) by {
                    assert(self.topics@[k].1.subscribers@[c].0 == b0.topics@[k].1.subscribers@[c].0);
                }
                lemma_keyed_related(tp0.entries(), tp1.entries(), rel);
            }
            lemma_keyed_related(b0.entries(), self.entries(), trel);
            assert forall|t: Seq<char>, s: Seq<char>|
                #![trigger self@.topics[t][s]]
                b0@.has(t, s) implies b0@.topics[t][s].redelivered(self@.topics[t][s], now, timeout) by {
                assert(trel(b0@.topics[t], self@.topics[t]));
            }
            assert forall|a: int| 0 <= a < self.topics@.len() implies distinct_keys(#[trigger] self.topics@[a].1.entries()) by {
                let tp0 = b0.topics@[a].1;
                let tp1 = self.topics@[a].1;
                assert forall|c: int| 0 <= c < tp0.entries().len() implies #[trigger] tp1.entries()[c].0 == tp0.entries()[c].0 && rel(
                    tp0.entries()[c].1,
                    tp1.entries()[c].1,
                ) by {
                    assert(self.topics@[a].1.subscribers@[c].0 == b0.topics@[a].1.subscribers@[c].0);
                }
                lemma_keyed_related(tp0.entries(), tp1.entries(), rel);
            }
            assert forall|a: int, c: int|
                0 <= a < self.topics@.len() && 0 <= c < self.topics@[a].1.subscribers@.len()
                    implies (#[trigger] self.topics@[a].1.subscribers@[c]).1@.sound(self.next_id, self.latest_handout) by {
                assert(b0.topics@[a].1.subscribers@[c].1@.sound(b0.next_id, b0.latest_handout));
                lemma_redelivered_valid(b0.topics@[a].1.subscribers@[c].1@, self.topics@[a].1.subscribers@[c].1@, b0.next_id, now, timeout);
            }
        }
    }

    /// One row per subscriber of every topic: topic name, subscriber name,
    /// number of pending messages, number of handed-out messages.
    pub fn stats(&self) -> (rows: Vec<(String, String, usize, usize)>)
        requires
            self.wf(),
        ensures
            lists_all_subscribers(self@, stats_rows_view(rows@)),
    {
        let mut out: Vec<(String, String, usize, usize)> = Vec::new();
        let ghost mut places: Seq<(int, int)> = Seq::empty();
        let n = self.topics.len();
        for i in 0..n
            invariant
                n == self.topics@.len(),
                self.wf(),
                out@.len() == places.len(),
                forall|k: int|
                    #![trigger places[k]]
                    0 <= k < places.len() ==> {
                        let (a, c) = places[k];
                        &&& 0 <= a < i
                        &&& 0 <= c < self.topics@[a].1.subscribers@.len()
                        &&& out@[k].0@ == self.topics@[a].0@
                        &&& out@[k].1@ == self.topics@[a].1.subscribers@[c].0@
                        &&& out@[k].2 as nat == self.topics@[a].1.subscribers@[c].1@.pending.len()
                        &&& out@[k].3 as nat == self.topics@[a].1.subscribers@[c].1@.inflight.len()
                    },
                forall|k1: int, k2: int|
                    0 <= k1 < k2 < places.len() ==> lex_lt(#[trigger] places[k1], #[trigger] places[k2]),
                forall|a: int, c: int|
                    0 <= a < i && 0 <= c < self.topics@[a].1.subscribers@.len() ==> #[trigger] covered(places, a, c),
        {
            let m = self.topics[i].1.subscribers.len();
            for j in 0..m
                invariant
                    n == self.topics@.len(),
                    i < n,
                    m == self.topics@[i as int].1.subscribers@.len(),
                    self.wf(),
                    out@.len() == places.len(),
                    forall|k: int|
                        #![trigger places[k]]
                        0 <= k < places.len() ==> {
                            let (a, c) = places[k];
                            &&& lex_lt((a, c), (i as int, j as int))
                            &&& 0 <= a <= i
                            &&& 0 <= c < self.topics@[a].1.subscribers@.len()
                            &&& out@[k].0@ == self.topics@[a].0@
                            &&& out@[k].1@ == self.topics@[a].1.subscribers@[c].0@
                            &&& out@[k].2 as nat == self.topics@[a].1.subscribers@[c].1@.pending.len()
                            &&& out@[k].3 as nat == self.topics@[a].1.subscribers@[c].1@.inflight.len()
                        },
                    forall|k1: int, k2: int|
                        0 <= k1 < k2 < places.len() ==> lex_lt(#[trigger] places[k1], #[trigger] places[k2]),
                    forall|a: int, c: int|
                        0 <= a <= i && 0 <= c < self.topics@[a].1.subscribers@.len() && lex_lt((a, c), (i as int, j as int))
                            ==> #[trigger] covered(places, a, c),
            {
                let entry = &self.topics[i].1.subscribers[j];
                let st = &entry.1;
                let pending = st.pending.len();
                let inflight = st.inflight.len();
                proof {
                    let sv = self.topics@[i as int].1.subscribers@[j as int].1@;
                    assert(sv.inflight.dom() =~= st.inflight@.dom());
                }
                out.push((self.topics[i].0.clone(), entry.0.clone(), pending, inflight));
                proof {
                    let old_places = places;
                    places = places.push((i as int, j as int));
                    assert forall|a: int, c: int|
                        0 <= a <= i && 0 <= c < self.topics@[a].1.subscribers@.len() && lex_lt((a, c), (i as int, j + 1))
                            implies #[trigger] covered(places, a, c) by {
                        if a == i && c == j {
                            assert(places[old_places.len() as int] == (a, c));
                        } else {
                            assert(covered(old_places, a, c));
                            let k = choose|k: int| 0 <= k < old_places.len() && #[trigger] old_places[k] == (a, c);
                            assert(places[k] == (a, c));
                        }
                    }
                }
            }
        }
        proof {
            let rows = stats_rows_view(out@);
            let m = self@;
            assert forall|k: int| #![trigger rows[k]] 0 <= k < rows.len() implies {
                &&& m.has(rows[k].0, rows[k].1)
                &&& rows[k].2 == m.topics[rows[k].0][rows[k].1].pending.len()
                &&& rows[k].3 == m.topics[rows[k].0][rows[k].1].inflight.len()
            } by {
                let (a, c) = places[k];
                lemma_keyed_at(self.entries(), a);
                lemma_keyed_at(self.topics@[a].1.entries(), c);
            }
            assert forall|t: Seq<char>, s: Seq<char>| #![trigger m.topics[t].contains_key(s)] m.has(t, s) implies exists|k: int|
                0 <= k < rows.len() && #[trigger] rows[k].0 == t && rows[k].1 == s by {
                let a = lemma_keyed_key(self.entries(), t);
                let c = lemma_keyed_key(self.topics@[a].1.entries(), s);
                assert(covered(places, a, c));
                let k = choose|k: int| 0 <= k < places.len() && #[trigger] places[k] == (a, c);
                assert(rows[k].0 == t && rows[k].1 == s);
            }
            assert forall|k1: int, k2: int|
                0 <= k1 < rows.len() && 0 <= k2 < rows.len() && k1 != k2 implies (#[trigger] rows[k1]).0
                != (#[trigger] rows[k2]).0 || rows[k1].1 != rows[k2].1 by {
                let p1 = places[k1];
                let p2 = places[k2];
                if k1 < k2 {
                    assert(lex_lt(p1, p2));
                } else {
                    assert(lex_lt(p2, p1));
                }
                assert(distinct_keys(self.entries()));
                if p1.0 != p2.0 {
                    assert(self.entries()[p1.0].0 != self.entries()[p2.0].0);
                } else {
                    assert(distinct_keys(self.topics@[p1.0].1.entries()));
                    assert(self.topics@[p1.0].1.entries()[p1.1].0 != self.topics@[p1.0].1.entries()[p2.1].0);
                }
            }
        }
        out
    }

    /// A reading of the broker's clock: nanoseconds since the broker was
    /// made, and never earlier than the latest hand-out recorded.
    pub fn clock_now(&self) -> (now: u128)
        ensures
            now >= self.latest_handout,
    {
        let reading = crate::clock::nanos_since(&self.epoch);
        if reading < self.latest_handout {
            self.latest_handout
        } else {
            reading
        }
    }

    /// Hands out the front pending message of subscriber `sub` of `topic`,
    /// recording it as handed out now on the broker's clock, no earlier than
    /// any hand-out before. Nothing happens, and `None` comes back, when the
    /// topic or the subscriber does not exist or nothing is pending.
    pub fn dequeue(&mut self, topic: &str, sub: &str) -> (r: Option<Message>)
        requires
            old(self).wf(),
        ensures
            final(self).wf(),
            exists|now: u128|
                now >= old(self).latest_handout && (final(self)@, match r {
                    Some(m) => Some(m@),
                    None => None::<MessageView>,
                }) == #[trigger] old(self)@.dequeued(topic@, sub@, now),
    {
        let now = self.clock_now();
        self.dequeue_at(topic, sub, now)
    }

    /// Moves, for every subscriber of every topic, each handed-out message
    /// held for longer than `timeout` back to the end of that subscriber's
    /// pending queue, judged by the broker's clock now, which reads no
    /// earlier than any hand-out.
    pub fn redeliver_timeout(&mut self, timeout: Duration)
        requires
            old(self).wf(),
        ensures
            final(self).wf(),
            exists|now: u128|
                now >= old(self).latest_handout && #[trigger] old(self)@.redelivered(
                    final(self)@,
                    now,
                    crate::clock::duration_nanos(timeout),
                ),
    {
        let now = self.clock_now();
        let limit = timeout.as_nanos();
        self.redeliver_expired(now, limit);
    }

    /// Settles handed-out message `msg_id` of subscriber `sub` of `topic`
    /// after processing whose success is decided by `roll`: processing
    /// succeeds when `roll % 100` is at least `fail_rate`, and the message
    /// is then acknowledged; otherwise it is put back. Returns whether
    /// processing succeeded.
    pub fn settle(&mut self, topic: &str, sub: &str, msg_id: u64, roll: u32, fail_rate: u32) -> (ok: bool)
        requires
            old(self).wf(),
        ensures
            final(self).wf(),
            ok == roll_succeeds(roll, fail_rate),
            final(self)@ == if ok {
                old(self)@.acked(topic@, sub@, msg_id).0
            } else {
                old(self)@.nacked(topic@, sub@, msg_id).0
            },
    {
        let ok = roll % 100 >= fail_rate;
        if ok {
            self.ack(topic, sub, msg_id);
        } else {
            self.nack(topic, sub, msg_id);
        }
        ok
    }

    /// Settles handed-out message `msg_id` of subscriber `sub` of `topic`
    /// after processing that fails with a chance of `fail_rate` in a hundred:
    /// acknowledged on success, put back on failure. Returns whether
    /// processing succeeded.
    pub fn settle_randomly(&mut self, topic: &str, sub: &str, msg_id: u64, fail_rate: u32) -> (ok: bool)
        requires
            old(self).wf(),
        ensures
            final(self).wf(),
            exists|roll: u32| ok == #[trigger] roll_succeeds(roll, fail_rate),
            final(self)@ == if ok {
                old(self)@.acked(topic@, sub@, msg_id).0
            } else {
                old(self)@.nacked(topic@, sub@, msg_id).0
            },
    {
        let roll = random_roll();
        self.settle(topic, sub, msg_id, roll, fail_rate)
    }

    /// The state of subscriber `sub` of `topic`, if both exist.
    pub fn subscriber_state(&self, topic: &str, sub: &str) -> (r: Option<&SubscriberState>)
        requires
            self.wf(),
        ensures
            match r {
                Some(st) => self@.has(topic@, sub@) && st@ == self@.topics[topic@][sub@],
                None => !self@.has(topic@, sub@),
            },
    {
        match self.locate(topic, sub) {
            None => None,
            Some((i, j)) => {
                proof {
                    lemma_keyed_at(self.entries(), i as int);
                    lemma_keyed_at(self.topics@[i as int].1.entries(), j as int);
                }
                Some(&self.topics[i].1.subscribers[j].1)
            },
        }
    }
}
} // verus!
