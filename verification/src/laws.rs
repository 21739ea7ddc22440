//! Properties of the broker that span operations or hold of every state.
use crate::broker::{later, lists_all_subscribers, BrokerView, MessageView, StatsRowView, SubscriberView};
use crate::protocol::{
    decimal, digit_char, digit_value, digits_value, is_digit, parsed_u64, reply, unsigned_digits, words_of,
};
use vstd::prelude::*;

verus! {

/// The identifiers a subscriber holds: those pending and those handed out.
pub open spec fn held_ids(sv: SubscriberView) -> Set<u64> {
    sv.pending.map_values(|m: MessageView| m.0).to_set() + sv.inflight.dom()
}

/// Only subscriber `s` of topic `t`, and the latest hand-out time, may
/// differ between `a` and `b`: the topics, the subscribers of each topic,
/// every other subscriber's state, the last identifier issued, the notifier,
/// the clock origin and the count of wake-ups are the same.
pub open spec fn only_sub_changed(a: BrokerView, b: BrokerView, t: Seq<char>, s: Seq<char>) -> bool {
    &&& b.next_id == a.next_id
    &&& b.notifier == a.notifier
    &&& b.epoch == a.epoch
    &&& b.wakeups == a.wakeups
    &&& b.topics.dom() == a.topics.dom()
    &&& forall|t2: Seq<char>| #[trigger] a.topics.contains_key(t2) ==> b.topics[t2].dom() == a.topics[t2].dom()
    &&& forall|t2: Seq<char>, s2: Seq<char>|
        #![trigger b.topics[t2][s2]]
        a.has(t2, s2) && (t2 != t || s2 != s) ==> b.topics[t2][s2] == a.topics[t2][s2]
}

proof fn lemma_with_sub_isolated(m: BrokerView, t: Seq<char>, s: Seq<char>, sv: SubscriberView)
    requires
        m.has(t, s),
    ensures
        only_sub_changed(m, m.with_sub(t, s, sv), t, s),
{
    let b = m.with_sub(t, s, sv);
    assert(b.topics.dom() =~= m.topics.dom());
    assert forall|t2: Seq<char>| #[trigger] m.topics.contains_key(t2) implies b.topics[t2].dom() == m.topics[t2].dom() by {
        if t2 == t {
            assert(b.topics[t2].dom() =~= m.topics[t2].dom());
        }
    }
}

/// Handing out, settling and putting back a message of one subscriber
/// leave every other subscriber, and the set of topics and subscribers,
/// as they were: each subscriber has its own copy of each message.
pub proof fn law_subscriber_isolation(m: BrokerView, t: Seq<char>, s: Seq<char>, now: u128, id: u64)
    ensures
        only_sub_changed(m, m.dequeued(t, s, now).0, t, s),
        only_sub_changed(m, m.acked(t, s, id).0, t, s),
        only_sub_changed(m, m.nacked(t, s, id).0, t, s),
{
    if m.has(t, s) {
        lemma_with_sub_isolated(m, t, s, m.topics[t][s].dequeued(now).0);
        lemma_with_sub_isolated(m, t, s, m.topics[t][s].acked(id).0);
        lemma_with_sub_isolated(m, t, s, m.topics[t][s].nacked(id).0);
    } else {
        assert(only_sub_changed(m, m, t, s));
    }
}

/// A message handed out and then put back is at the end of the
/// subscriber's queue, the subscriber holds nothing else handed out than
/// before, and the broker is as before the hand-out but for that queue and
/// the latest hand-out time.
pub proof fn law_dequeue_then_nack(m: BrokerView, t: Seq<char>, s: Seq<char>, now: u128)
    requires
        m.valid(),
        m.has(t, s),
        m.topics[t][s].pending.len() > 0,
    ensures
        ({
            let (m1, r) = m.dequeued(t, s, now);
            let msg = m.topics[t][s].pending[0];
            let (m2, ok) = m1.nacked(t, s, msg.0);
            &&& r == Some(msg)
            &&& ok
            &&& m2.topics[t][s].pending == m.topics[t][s].pending.drop_first().push(msg)
            &&& m2.topics[t][s].inflight == m.topics[t][s].inflight
            &&& only_sub_changed(m, m2, t, s)
            &&& m2 == BrokerView {
                latest_handout: later(m.latest_handout, now),
                ..m.with_sub(
                    t,
                    s,
                    SubscriberView {
                        pending: m.topics[t][s].pending.drop_first().push(msg),
                        inflight: m.topics[t][s].inflight,
                    },
                )
            }
        }),
{
    let sv = m.topics[t][s];
    let msg = sv.pending[0];
    assert(sv.valid(m.next_id));
    assert(!sv.inflight.contains_key(msg.0));
    let (m1, r) = m.dequeued(t, s, now);
    assert(m1.has(t, s));
    assert(m1.topics[t][s].inflight[msg.0] == (msg, now));
    let (m2, ok) = m1.nacked(t, s, msg.0);
    assert(m2.topics[t][s].inflight =~= sv.inflight);
    law_subscriber_isolation(m, t, s, now, msg.0);
    law_subscriber_isolation(m1, t, s, now, msg.0);
    let rotated = SubscriberView { pending: sv.pending.drop_first().push(msg), inflight: sv.inflight };
    assert(m2.topics[t][s] == rotated);
    assert(m1.topics[t].insert(s, rotated) =~= m.topics[t].insert(s, rotated));
    assert(m2.topics =~= m.with_sub(t, s, rotated).topics);
}

/// A message handed out and then acknowledged is gone: the subscriber's
/// queue lost its front and its handed-out table is as before.
pub proof fn law_dequeue_then_ack(m: BrokerView, t: Seq<char>, s: Seq<char>, now: u128)
    requires
        m.valid(),
        m.has(t, s),
        m.topics[t][s].pending.len() > 0,
    ensures
        ({
            let (m1, r) = m.dequeued(t, s, now);
            let msg = m.topics[t][s].pending[0];
            let (m2, ok) = m1.acked(t, s, msg.0);
            &&& r == Some(msg)
            &&& ok
            &&& m2.topics[t][s].pending == m.topics[t][s].pending.drop_first()
            &&& m2.topics[t][s].inflight == m.topics[t][s].inflight
            &&& !held_ids(m2.topics[t][s]).contains(msg.0)
        }),
{
    let sv = m.topics[t][s];
    let msg = sv.pending[0];
    assert(sv.valid(m.next_id));
    assert(!sv.inflight.contains_key(msg.0));
    let (m1, r) = m.dequeued(t, s, now);
    let (m2, ok) = m1.acked(t, s, msg.0);
    let sv2 = m2.topics[t][s];
    assert(sv2.inflight =~= sv.inflight);
    if held_ids(sv2).contains(msg.0) {
        let ids = sv2.pending.map_values(|x: MessageView| x.0);
        if ids.to_set().contains(msg.0) {
            let i = choose|i: int| 0 <= i < ids.len() && ids[i] == msg.0;
            assert(sv2.pending[i] == sv.pending[i + 1]);
        }
    }
}

/// A message is settled at most once: acknowledging it again fails and
/// changes nothing.
pub proof fn law_ack_once(m: BrokerView, t: Seq<char>, s: Seq<char>, id: u64)
    ensures
        ({
            let (m1, _) = m.acked(t, s, id);
            m1.acked(t, s, id) == (m1, false)
        }),
{
    let (m1, ok) = m.acked(t, s, id);
    if m.has(t, s) {
        assert(m1.has(t, s));
        if ok {
            assert(!m1.topics[t][s].inflight.contains_key(id));
        }
        m1.lemma_with_same_sub(t, s);
    }
}

/// A subscriber with nothing pending is handed nothing, and nothing
/// changes.
pub proof fn law_dequeue_empty(m: BrokerView, t: Seq<char>, s: Seq<char>, now: u128)
    requires
        !m.has(t, s) || m.topics[t][s].pending.len() == 0,
    ensures
        m.dequeued(t, s, now) == (m, None::<MessageView>),
{
    if m.has(t, s) {
        m.lemma_with_same_sub(t, s);
    }
}

/// Subscribing twice is subscribing once, and a subscriber keeps its
/// state when it subscribes again.
pub proof fn law_subscribe_idempotent(m: BrokerView, t: Seq<char>, s: Seq<char>)
    ensures
        m.subscribed(t, s).has(t, s),
        m.subscribed(t, s).subscribed(t, s) == m.subscribed(t, s),
        m.has(t, s) ==> m.subscribed(t, s) == m,
{
}

/// The identifiers a publish returns start at 1 and go up by one each
/// time, whether or not the topic exists.
pub proof fn law_publish_ids(m: BrokerView, t1: Seq<char>, b1: Seq<char>, t2: Seq<char>, b2: Seq<char>)
    requires
        m.next_id + 1 < u64::MAX,
    ensures
        ({
            let (m1, id1) = m.published(t1, b1);
            let (m2, id2) = m1.published(t2, b2);
            &&& id1 >= 1
            &&& id1 == m.next_id + 1
            &&& id2 == id1 + 1
        }),
{
}

/// A publish to an existing topic appends the same message to the queue of
/// every one of its subscribers and changes nothing else of them; other
/// topics are untouched.
pub proof fn law_publish_broadcasts(m: BrokerView, t: Seq<char>, body: Seq<char>)
    requires
        m.next_id < u64::MAX,
    ensures
        ({
            let (m1, id) = m.published(t, body);
            &&& m1.topics.dom() == m.topics.dom()
            &&& forall|t2: Seq<char>| #[trigger] m.topics.contains_key(t2) ==> m1.topics[t2].dom() == m.topics[t2].dom()
            &&& forall|s: Seq<char>|
                #![trigger m1.topics[t][s]]
                m.has(t, s) ==> m1.topics[t][s].pending == m.topics[t][s].pending.push((id, body))
                    && m1.topics[t][s].inflight == m.topics[t][s].inflight
            &&& forall|t2: Seq<char>| #[trigger] m.topics.contains_key(t2) && t2 != t ==> m1.topics[t2] == m.topics[t2]
        }),
{
    let (m1, id) = m.published(t, body);
    assert(m1.topics.dom() =~= m.topics.dom());
    assert forall|t2: Seq<char>| #[trigger] m.topics.contains_key(t2) implies m1.topics[t2].dom() == m.topics[t2].dom() by {
        if t2 == t {
            assert(m1.topics[t2].dom() =~= m.topics[t2].dom());
        }
    }
}

/// Handing out and putting back a message keep the identifiers a
/// subscriber holds; acknowledging a handed-out message removes exactly
/// that one.
/// No message is lost or duplicated.
pub proof fn law_held_ids(sv: SubscriberView, n: u64, now: u128, id: u64)
    requires
        sv.valid(n),
    ensures
        held_ids(sv.dequeued(now).0) == held_ids(sv),
        held_ids(sv.nacked(id).0) == held_ids(sv),
        held_ids(sv.acked(id).0) == if sv.inflight.contains_key(id) {
            held_ids(sv).remove(id)
        } else {
            held_ids(sv)
        },
{
    let f = |m: MessageView| m.0;
    let ids = sv.pending.map_values(f);
    if sv.pending.len() > 0 {
        let sv1 = sv.dequeued(now).0;
        let ids1 = sv1.pending.map_values(f);
        assert(ids1 =~= ids.drop_first());
        assert forall|k: u64| #[trigger] held_ids(sv1).contains(k) <==> held_ids(sv).contains(k) by {
            if ids.to_set().contains(k) && k != ids[0] {
                let i = choose|i: int| 0 <= i < ids.len() && ids[i] == k;
                assert(ids1[i - 1] == k);
            }
            if ids1.to_set().contains(k) {
                let i = choose|i: int| 0 <= i < ids1.len() && ids1[i] == k;
                assert(ids[i + 1] == k);
            }
            if k == ids[0] {
                assert(sv1.inflight.contains_key(k));
            }
        }
        assert(held_ids(sv1) =~= held_ids(sv));
    } else {
        assert(held_ids(sv.dequeued(now).0) =~= held_ids(sv));
    }
    if sv.inflight.contains_key(id) {
        let sv2 = sv.nacked(id).0;
        let ids2 = sv2.pending.map_values(f);
        assert(ids2 =~= ids.push(id));
        assert forall|k: u64| #[trigger] held_ids(sv2).contains(k) <==> held_ids(sv).contains(k) by {
            if ids.to_set().contains(k) {
                let i = choose|i: int| 0 <= i < ids.len() && ids[i] == k;
                assert(ids2[i] == k);
            }
            if ids2.to_set().contains(k) && k != id {
                let i = choose|i: int| 0 <= i < ids2.len() && ids2[i] == k;
                assert(ids[i] == k);
            }
            if k == id {
                assert(ids2[ids.len() as int] == k);
            }
        }
        assert(held_ids(sv2) =~= held_ids(sv));
        let sv3 = sv.acked(id).0;
        assert forall|k: u64| #[trigger] held_ids(sv3).contains(k) <==> held_ids(sv).remove(id).contains(k) by {
            if ids.to_set().contains(k) {
                let i = choose|i: int| 0 <= i < ids.len() && ids[i] == k;
                assert(!sv.inflight.contains_key(sv.pending[i].0));
            }
        }
        assert(held_ids(sv3) =~= held_ids(sv).remove(id));
    } else {
        assert(held_ids(sv.nacked(id).0) =~= held_ids(sv));
        assert(held_ids(sv.acked(id).0) =~= held_ids(sv));
    }
}

/// Moving overdue messages back keeps the identifiers a subscriber holds,
/// leaves no overdue message handed out, and keeps every message that is
/// not overdue handed out as it was.
pub proof fn law_redelivery(sv: SubscriberView, next: SubscriberView, n: u64, now: u128, timeout: u128)
    requires
        sv.valid(n),
        sv.redelivered(next, now, timeout),
    ensures
        held_ids(next) == held_ids(sv),
        forall|k: u64| #[trigger] next.inflight.contains_key(k) ==> !overdue_entry(next, k, now, timeout),
        forall|k: u64|
            #[trigger] sv.inflight.contains_key(k) && !overdue_entry(sv, k, now, timeout)
                ==> next.inflight.contains_key(k) && next.inflight[k] == sv.inflight[k],
{
    let due = sv.overdue_ids(now, timeout);
    let order = choose|order: Seq<u64>|
        #![trigger order.to_set()]
        {
            &&& order.no_duplicates()
            &&& order.to_set() == due
            &&& next.pending == sv.pending + order.map_values(|k: u64| sv.inflight[k].0)
        };
    let f = |m: MessageView| m.0;
    let ids = sv.pending.map_values(f);
    let ids2 = next.pending.map_values(f);
    assert forall|k: u64| #[trigger] held_ids(next).contains(k) <==> held_ids(sv).contains(k) by {
        if ids2.to_set().contains(k) {
            let i = choose|i: int| 0 <= i < ids2.len() && ids2[i] == k;
            if i < ids.len() {
                assert(ids[i] == k);
            } else {
                let q = order[i - ids.len()];
                assert(order.to_set().contains(q));
                assert(next.pending[i] == sv.inflight[q].0);
            }
        }
        if ids.to_set().contains(k) {
            let i = choose|i: int| 0 <= i < ids.len() && ids[i] == k;
            assert(ids2[i] == k);
        }
        if sv.inflight.contains_key(k) && !next.inflight.contains_key(k) {
            assert(due.contains(k));
            assert(order.to_set().contains(k));
            let j = choose|j: int| 0 <= j < order.len() && order[j] == k;
            assert(next.pending[ids.len() + j] == sv.inflight[k].0);
            assert(ids2[ids.len() + j] == k);
        }
    }
    assert(held_ids(next) =~= held_ids(sv));
}

/// Handed-out message `k` of `sv` is overdue at `now`.
pub open spec fn overdue_entry(sv: SubscriberView, k: u64, now: u128, timeout: u128) -> bool {
    crate::broker::overdue(sv.inflight[k].1, now, timeout)
}

/// The decimal text of a number parses back to that number.
pub proof fn law_decimal_roundtrip(n: u64)
    ensures
        parsed_u64(decimal(n as nat)) == Some(n),
{
    lemma_decimal_digits(n as nat);
    let d = decimal(n as nat);
    assert(is_digit(d[0]));
    assert(unsigned_digits(d) == d);
}

proof fn lemma_decimal_digits(n: nat)
    ensures
        decimal(n).len() > 0,
        forall|i: int| 0 <= i < decimal(n).len() ==> is_digit(#[trigger] decimal(n)[i]),
        digits_value(decimal(n)) == n,
    decreases n,
{
    if n < 10 {
        let c = digit_char(n);
        assert(c as u32 == 48 + n);
        assert(digit_value(c) == n);
        assert(decimal(n).drop_last() =~= Seq::<char>::empty());
        assert(decimal(n).last() == c);
        assert(digits_value(Seq::<char>::empty()) == 0);
    } else {
        lemma_decimal_digits(n / 10);
        let c = digit_char(n % 10);
        assert(c as u32 == 48 + n % 10);
        assert(decimal(n).drop_last() =~= decimal(n / 10));
        assert forall|i: int| 0 <= i < decimal(n).len() implies is_digit(#[trigger] decimal(n)[i]) by {
            if i < decimal(n / 10).len() {
                assert(decimal(n)[i] == decimal(n / 10)[i]);
            }
        }
        assert(digit_value(c) == n % 10);
        assert(decimal(n).last() == c);
        assert((n / 10) * 10 + n % 10 == n);
    }
}


/// How many messages a subscriber holds: pending and handed out.
pub open spec fn held_count(sv: SubscriberView) -> int {
    sv.pending.len() + sv.inflight.len() as int
}

/// Handing out, putting back and moving back overdue messages keep the
/// number of messages a subscriber holds; acknowledging a handed-out message
/// lowers it by one, and acknowledging anything else keeps it.
pub proof fn law_counts_conserved(sv: SubscriberView, next: SubscriberView, n: u64, now: u128, timeout: u128, id: u64)
    requires
        sv.valid(n),
        sv.inflight.dom().finite(),
    ensures
        held_count(sv.dequeued(now).0) == held_count(sv),
        held_count(sv.nacked(id).0) == held_count(sv),
        held_count(sv.acked(id).0) == held_count(sv) - if sv.inflight.contains_key(id) { 1int } else { 0int },
        sv.redelivered(next, now, timeout) ==> held_count(next) == held_count(sv),
{
    if sv.pending.len() > 0 {
        let k = sv.pending[0].0;
        assert(!sv.inflight.contains_key(k));
    }
    if sv.redelivered(next, now, timeout) {
        let due = sv.overdue_ids(now, timeout);
        let order = choose|order: Seq<u64>|
            #![trigger order.to_set()]
            {
                &&& order.no_duplicates()
                &&& order.to_set() == due
                &&& next.pending == sv.pending + order.map_values(|k: u64| sv.inflight[k].0)
            };
        order.unique_seq_to_set();
        assert(due.subset_of(sv.inflight.dom()));
        vstd::set_lib::lemma_len_subset(due, sv.inflight.dom());
        assert(next.inflight.dom() =~= sv.inflight.dom().difference(due));
        vstd::set_lib::lemma_set_difference_len(sv.inflight.dom(), due);
        assert(sv.inflight.dom().intersect(due) =~= due);
    }
}

/// An acknowledged message never comes back: once a subscriber no longer
/// holds an issued identifier, handing out, putting back, acknowledging,
/// moving back overdue messages and publishing the next identifier leave it
/// not held.
pub proof fn law_settled_stays_settled(
    sv: SubscriberView,
    next: SubscriberView,
    n: u64,
    now: u128,
    timeout: u128,
    id: u64,
    other: u64,
    body: Seq<char>,
)
    requires
        sv.valid(n),
        id <= n,
        !held_ids(sv).contains(id),
    ensures
        !held_ids(sv.dequeued(now).0).contains(id),
        !held_ids(sv.nacked(other).0).contains(id),
        !held_ids(sv.acked(other).0).contains(id),
        sv.redelivered(next, now, timeout) ==> !held_ids(next).contains(id),
        n < u64::MAX ==> !held_ids(sv.published(((n + 1) as u64, body))).contains(id),
{
    law_held_ids(sv, n, now, other);
    if sv.redelivered(next, now, timeout) {
        law_redelivery(sv, next, n, now, timeout);
    }
    if n < u64::MAX {
        let f = |m: MessageView| m.0;
        let p = sv.published(((n + 1) as u64, body));
        let ids = sv.pending.map_values(f);
        let ids2 = p.pending.map_values(f);
        if ids2.to_set().contains(id) {
            let i = choose|i: int| 0 <= i < ids2.len() && ids2[i] == id;
            if i < ids.len() {
                assert(ids[i] == id);
            }
        }
    }
}

/// Some row of `rows` names the same subscription as `row`, with one
/// pending message fewer when its topic is `t`, and as many handed out.
pub open spec fn row_before(rows: Seq<StatsRowView>, row: StatsRowView, t: Seq<char>) -> bool {
    exists|k: int|
        0 <= k < rows.len() && #[trigger] rows[k] == (row.0, row.1, (row.2 - if row.0 == t { 1int } else { 0int }) as nat, row.3)
}

/// Some row of `rows` names subscriber `s` of topic `t`.
pub open spec fn row_named(rows: Seq<StatsRowView>, t: Seq<char>, s: Seq<char>) -> bool {
    exists|k: int| 0 <= k < rows.len() && #[trigger] rows[k].0 == t && rows[k].1 == s
}

/// The statistics after a publish list the same subscriptions as before;
/// each subscriber of the topic published to has one more message pending,
/// and every other count is as before.
pub proof fn law_publish_stats(
    m: BrokerView,
    t: Seq<char>,
    body: Seq<char>,
    rows: Seq<StatsRowView>,
    rows1: Seq<StatsRowView>,
)
    requires
        m.next_id < u64::MAX,
        lists_all_subscribers(m, rows),
        lists_all_subscribers(m.published(t, body).0, rows1),
    ensures
        forall|k1: int| 0 <= k1 < rows1.len() ==> row_before(rows, #[trigger] rows1[k1], t),
        forall|k1: int| 0 <= k1 < rows1.len() && #[trigger] rows1[k1].0 == t ==> rows1[k1].2 >= 1,
        forall|k: int| 0 <= k < rows.len() ==> row_named(rows1, (#[trigger] rows[k]).0, rows[k].1),
{
    let m1 = m.published(t, body).0;
    law_publish_broadcasts(m, t, body);
    assert forall|k1: int| 0 <= k1 < rows1.len() implies row_before(rows, #[trigger] rows1[k1], t) && (rows1[k1].0 == t ==> rows1[k1].2 >= 1) by {
        let t2 = rows1[k1].0;
        let s2 = rows1[k1].1;
        assert(m1.has(t2, s2));
        assert(m.topics.contains_key(t2));
        assert(m.has(t2, s2));
        assert(m.topics[t2].contains_key(s2));
        let k = choose|k: int| 0 <= k < rows.len() && #[trigger] rows[k].0 == t2 && rows[k].1 == s2;
        if t2 == t {
            assert(m1.topics[t2][s2].pending == m.topics[t2][s2].pending.push(((m.next_id + 1) as u64, body)));
        }
        assert(rows[k] == (rows1[k1].0, rows1[k1].1, (rows1[k1].2 - if rows1[k1].0 == t { 1int } else { 0int }) as nat, rows1[k1].3));
    }
    assert forall|k: int| 0 <= k < rows.len() implies row_named(rows1, (#[trigger] rows[k]).0, rows[k].1) by {
        let t2 = rows[k].0;
        let s2 = rows[k].1;
        assert(m.has(t2, s2));
        assert(m1.topics.contains_key(t2));
        assert(m1.topics[t2].contains_key(s2));
    }
}


/// A public call that changes a broker, as the contracts see it. Settling
/// after processing is an `Ack` or a `Nack`; a request line served is one of
/// these or none; clock readings and timeouts are the values the call used.
pub ghost enum Call {
    Publish { topic: Seq<char>, body: Seq<char> },
    Subscribe { topic: Seq<char>, sub: Seq<char> },
    Dequeue { topic: Seq<char>, sub: Seq<char>, now: u128 },
    Ack { topic: Seq<char>, sub: Seq<char>, id: u64 },
    Nack { topic: Seq<char>, sub: Seq<char>, id: u64 },
    Redeliver { now: u128, timeout: u128 },
}

/// `next` is what call `c` makes of `m`, by the calls' contracts.
pub open spec fn step(m: BrokerView, c: Call, next: BrokerView) -> bool {
    match c {
        Call::Publish { topic, body } => m.next_id < u64::MAX && next == m.published(topic, body).0,
        Call::Subscribe { topic, sub } => next == m.subscribed(topic, sub),
        Call::Dequeue { topic, sub, now } => next == m.dequeued(topic, sub, now).0,
        Call::Ack { topic, sub, id } => next == m.acked(topic, sub, id).0,
        Call::Nack { topic, sub, id } => next == m.nacked(topic, sub, id).0,
        Call::Redeliver { now, timeout } => m.redelivered(next, now, timeout),
    }
}

/// `states` are the brokers that the calls `calls` go through, one after
/// the other.
pub open spec fn run(states: Seq<BrokerView>, calls: Seq<Call>) -> bool {
    &&& states.len() == calls.len() + 1
    &&& forall|i: int| 0 <= i < calls.len() ==> step(#[trigger] states[i], calls[i], states[i + 1])
}

/// Subscriber `s` of topic `t` exists, holds no message `id`, and `id` has
/// been issued, in a broker whose every subscriber state is valid.
pub open spec fn settled_in(m: BrokerView, t: Seq<char>, s: Seq<char>, id: u64) -> bool {
    &&& m.valid()
    &&& m.has(t, s)
    &&& !held_ids(m.topics[t][s]).contains(id)
    &&& id <= m.next_id
}

/// One call keeps a settled message settled.
proof fn lemma_step_keeps_settled(m: BrokerView, c: Call, next: BrokerView, t: Seq<char>, s: Seq<char>, id: u64)
    requires
        settled_in(m, t, s, id),
        step(m, c, next),
    ensures
        settled_in(next, t, s, id),
{
    let sv = m.topics[t][s];
    assert(sv.valid(m.next_id));
    match c {
        Call::Publish { topic, body } => {
            let n1 = (m.next_id + 1) as u64;
            assert forall|t2: Seq<char>, s2: Seq<char>|
                #![trigger next.topics[t2][s2]]
                next.has(t2, s2) implies next.topics[t2][s2].valid(next.next_id) by {
                assert(m.has(t2, s2));
                crate::broker::lemma_sub_ops_valid(m.topics[t2][s2], m.next_id, 0, 0, body);
            }
            assert(next.has(t, s));
            law_settled_stays_settled(sv, sv, m.next_id, 0, 0, id, 0, body);
        },
        Call::Subscribe { topic, sub } => {
            assert forall|t2: Seq<char>, s2: Seq<char>|
                #![trigger next.topics[t2][s2]]
                next.has(t2, s2) implies next.topics[t2][s2].valid(next.next_id) by {
                if m.has(t2, s2) {
                    assert(m.topics[t2][s2].valid(m.next_id));
                }
            }
            assert(next.has(t, s));
            assert(next.topics[t][s] == sv);
        },
        Call::Dequeue { topic, sub, now } => {
            if m.has(topic, sub) {
                let sv2 = m.topics[topic][sub];
                assert(sv2.valid(m.next_id));
                crate::broker::lemma_sub_ops_valid(sv2, m.next_id, now, 0, Seq::empty());
            }
            assert forall|t2: Seq<char>, s2: Seq<char>|
                #![trigger next.topics[t2][s2]]
                next.has(t2, s2) implies next.topics[t2][s2].valid(next.next_id) by {
                assert(m.has(t2, s2));
                assert(m.topics[t2][s2].valid(m.next_id));
            }
            law_settled_stays_settled(sv, sv, m.next_id, now, 0, id, 0, Seq::empty());
        },
        Call::Ack { topic, sub, id: other } => {
            if m.has(topic, sub) {
                let sv2 = m.topics[topic][sub];
                assert(sv2.valid(m.next_id));
                crate::broker::lemma_sub_ops_valid(sv2, m.next_id, 0, other, Seq::empty());
            }
            assert forall|t2: Seq<char>, s2: Seq<char>|
                #![trigger next.topics[t2][s2]]
                next.has(t2, s2) implies next.topics[t2][s2].valid(next.next_id) by {
                assert(m.has(t2, s2));
                assert(m.topics[t2][s2].valid(m.next_id));
            }
            law_settled_stays_settled(sv, sv, m.next_id, 0, 0, id, other, Seq::empty());
        },
        Call::Nack { topic, sub, id: other } => {
            if m.has(topic, sub) {
                let sv2 = m.topics[topic][sub];
                assert(sv2.valid(m.next_id));
                crate::broker::lemma_sub_ops_valid(sv2, m.next_id, 0, other, Seq::empty());
            }
            assert forall|t2: Seq<char>, s2: Seq<char>|
                #![trigger next.topics[t2][s2]]
                next.has(t2, s2) implies next.topics[t2][s2].valid(next.next_id) by {
                assert(m.has(t2, s2));
                assert(m.topics[t2][s2].valid(m.next_id));
            }
            law_settled_stays_settled(sv, sv, m.next_id, 0, 0, id, other, Seq::empty());
        },
        Call::Redeliver { now, timeout } => {
            assert forall|t2: Seq<char>, s2: Seq<char>|
                #![trigger next.topics[t2][s2]]
                next.has(t2, s2) implies next.topics[t2][s2].valid(next.next_id) by {
                assert(m.has(t2, s2));
                assert(m.topics[t2][s2].valid(m.next_id));
                crate::broker::lemma_redelivered_valid(m.topics[t2][s2], next.topics[t2][s2], m.next_id, now, timeout);
            }
            assert(next.has(t, s));
            law_settled_stays_settled(sv, next.topics[t][s], m.next_id, now, timeout, id, 0, Seq::empty());
        },
    }
}

/// An acknowledged message never comes back: once acknowledging `id` for
/// subscriber `s` of topic `t` succeeds, no later public call hands `id` to
/// that subscriber again or puts it in its queue; it is neither pending nor
/// handed out in any broker the calls after it go through.
pub proof fn law_acked_never_returns(states: Seq<BrokerView>, calls: Seq<Call>, t: Seq<char>, s: Seq<char>, id: u64)
    requires
        states[0].valid(),
        run(states, calls),
        calls.len() > 0,
        calls[0] == (Call::Ack { topic: t, sub: s, id }),
        states[0].acked(t, s, id).1,
    ensures
        forall|j: int|
            1 <= j < states.len() ==> (#[trigger] states[j]).has(t, s) && !held_ids(states[j].topics[t][s]).contains(id),
{
    let m = states[0];
    let sv = m.topics[t][s];
    assert(step(states[0], calls[0], states[1]));
    assert(sv.valid(m.next_id));
    crate::broker::lemma_sub_ops_valid(sv, m.next_id, 0, id, Seq::empty());
    law_held_ids(sv, m.next_id, 0, id);
    assert forall|t2: Seq<char>, s2: Seq<char>|
        #![trigger states[1].topics[t2][s2]]
        states[1].has(t2, s2) implies states[1].topics[t2][s2].valid(states[1].next_id) by {
        assert(m.has(t2, s2));
        assert(m.topics[t2][s2].valid(m.next_id));
    }
    assert(settled_in(states[1], t, s, id));
    lemma_run_keeps_settled(states, calls, t, s, id, 1);
}

/// Every broker of a run from one where a message is settled keeps it
/// settled.
proof fn lemma_run_keeps_settled(states: Seq<BrokerView>, calls: Seq<Call>, t: Seq<char>, s: Seq<char>, id: u64, from: int)
    requires
        run(states, calls),
        0 <= from < states.len(),
        settled_in(states[from], t, s, id),
    ensures
        forall|j: int| from <= j < states.len() ==> settled_in(#[trigger] states[j], t, s, id),
    decreases states.len() - from,
{
    if from + 1 < states.len() {
        assert(step(states[from], calls[from], states[from + 1]));
        lemma_step_keeps_settled(states[from], calls[from], states[from + 1], t, s, id);
        lemma_run_keeps_settled(states, calls, t, s, id, from + 1);
    }
}

/// Subscriber `s` of topic `t` exists in `r` exactly when it exists in `m`.
pub open spec fn same_subscriptions(m: BrokerView, r: BrokerView) -> bool {
    forall|t2: Seq<char>, s2: Seq<char>| #[trigger] r.has(t2, s2) <==> m.has(t2, s2)
}

/// Serving a request line never removes a subscription, and only a
/// `SUBSCRIBE t s` line adds one: exactly `s` to `t`, which then exists,
/// keeping its state if it existed and starting with nothing otherwise.
/// Every other line leaves the set of subscriptions as it was.
pub proof fn law_lines_and_subscriptions(m: BrokerView, line: Seq<char>, now: u128)
    ensures
        ({
            let w = words_of(line);
            let r = reply(m, line, now).0;
            let subscribing = w.len() >= 3 && w[0] == "SUBSCRIBE"@;
            &&& forall|t2: Seq<char>, s2: Seq<char>| #[trigger] m.has(t2, s2) ==> r.has(t2, s2)
            &&& forall|t2: Seq<char>, s2: Seq<char>|
                #[trigger] r.has(t2, s2) ==> m.has(t2, s2) || (subscribing && t2 == w[1] && s2 == w[2])
            &&& subscribing ==> r.has(w[1], w[2])
            &&& subscribing && m.has(w[1], w[2]) ==> r == m
            &&& subscribing && !m.has(w[1], w[2]) ==> r.topics[w[1]][w[2]] == SubscriberView::empty()
            &&& subscribing ==> r.next_id == m.next_id
            &&& subscribing ==> forall|t2: Seq<char>, s2: Seq<char>|
                #[trigger] m.has(t2, s2) && (t2 != w[1] || s2 != w[2]) ==> r.topics[t2][s2] == m.topics[t2][s2]
            &&& !subscribing ==> same_subscriptions(m, r)
        }),
{
    let w = words_of(line);
    let r = reply(m, line, now).0;
    if w.len() >= 3 {
        let t = w[1];
        let s = w[2];
        if w[0] == "SUBSCRIBE"@ {
        } else if w[0] == "PUBLISH"@ {
            law_publish_broadcasts_domains(m, t, crate::protocol::join_words(w.skip(2)));
        } else if w[0] == "DEQUEUE"@ {
            lemma_ops_keep_subscriptions(m, t, s, now, 0);
        } else if w[0] == "ACK"@ || w[0] == "NACK"@ {
            lemma_ops_keep_subscriptions(m, t, s, now, crate::protocol::id_argument(w[3]));
        }
    }
}

proof fn law_publish_broadcasts_domains(m: BrokerView, t: Seq<char>, body: Seq<char>)
    ensures
        same_subscriptions(m, m.published(t, body).0),
{
}

proof fn lemma_ops_keep_subscriptions(m: BrokerView, t: Seq<char>, s: Seq<char>, now: u128, id: u64)
    ensures
        same_subscriptions(m, m.dequeued(t, s, now).0),
        same_subscriptions(m, m.acked(t, s, id).0),
        same_subscriptions(m, m.nacked(t, s, id).0),
{
}

/// A `DEQUEUE t s` line never creates anything: when subscriber `s` of `t`
/// does not exist the broker is unchanged and the answer is `EMPTY`; when it
/// exists, the front of its queue, if any, is handed out at `now` and
/// answered, and nothing else of the subscriptions changes.
pub proof fn law_dequeue_line(m: BrokerView, line: Seq<char>, now: u128)
    requires
        words_of(line).len() >= 3,
        words_of(line)[0] == "DEQUEUE"@,
    ensures
        ({
            let w = words_of(line);
            let (r, answer) = reply(m, line, now);
            let (t, s) = (w[1], w[2]);
            &&& same_subscriptions(m, r)
            &&& !m.has(t, s) ==> r == m && answer == "EMPTY\n"@
            &&& m.has(t, s) && m.topics[t][s].pending.len() == 0 ==> r == m && answer == "EMPTY\n"@
            &&& m.has(t, s) && m.topics[t][s].pending.len() > 0 ==> {
                let msg = m.topics[t][s].pending[0];
                &&& r.topics[t][s].pending == m.topics[t][s].pending.drop_first()
                &&& r.topics[t][s].inflight == m.topics[t][s].inflight.insert(msg.0, (msg, now))
                &&& answer == "MSG "@ + decimal(msg.0 as nat) + " "@ + msg.1 + " \n"@
            }
        }),
{
    let w = words_of(line);
    assert(w[0] != "SUBSCRIBE"@) by {
        reveal_strlit("SUBSCRIBE");
        reveal_strlit("DEQUEUE");
        assert(w[0].len() != "SUBSCRIBE"@.len());
    }
    assert(w[0] != "PUBLISH"@) by {
        reveal_strlit("PUBLISH");
        reveal_strlit("DEQUEUE");
        assert(w[0][0] != "PUBLISH"@[0]);
    }
    lemma_ops_keep_subscriptions(m, w[1], w[2], now, 0);
    if m.has(w[1], w[2]) && m.topics[w[1]][w[2]].pending.len() == 0 {
        assert(m.dequeued(w[1], w[2], now).0 == m);
    }
}
} // verus!
