//! A broadcast channel with per-receiver cursors and time-bounded retention.
use vstd::prelude::*;
use std::sync::Arc;

verus! {

/// The retention window of a sender made by `default_expiration`, in milliseconds.
pub const DEFAULT_EXPIRATION_MILLIS: u64 = 30000;

#[derive(Debug)]
struct Event<T> {
    inner: Arc<T>,
    sent_at: u64,
    index: u32,
}

/// A cursor into one sender's stream: the index of the next event to read.
#[derive(Debug)]
pub struct EventReceiver {
    next_index: u32,
}

/// The sending side: a buffer of recent events, each with its send time and
/// index, and the receivers registered under a name.
#[derive(Debug)]
pub struct EventSender<T> {
    /// How long an event stays retrievable, in milliseconds.
    pub event_expiration_time: u64,
    events: std::collections::VecDeque<Event<T>>,
    named_receivers: Vec<(String, u32)>,
    next_index: u32,
    subscribers: u32,
}

/// A handle to the cursor that a sender keeps under one name.
#[derive(Debug)]
pub struct NamedReceiver {
    name: String,
}

impl NamedReceiver {
    /// The name the cursor is kept under.
    pub closed spec fn name(&self) -> Seq<char> {
        self.name@
    }
}

impl EventReceiver {
    /// The index of the next event this receiver reads.
    pub closed spec fn cursor(&self) -> u32 {
        self.next_index
    }

    pub fn next_index(&self) -> (r: u32)
        ensures
            r == self.cursor(),
    {
        self.next_index
    }

    /// The event at this receiver's cursor, if the sender still retains it.
    pub fn peek<T>(&self, sender: &EventSender<T>) -> (r: Option<Arc<T>>)
        requires
            sender.wf(),
        ensures
            r == sender.entry(self.cursor() as int),
    {
        let len = sender.events.len();
        let front = sender.next_index - len as u32;
        if self.next_index >= front && self.next_index < sender.next_index {
            let k = (self.next_index - front) as usize;
            Some(Arc::clone(&sender.events[k].inner))
        } else {
            None
        }
    }

    /// Reads the event at the cursor and moves past it; `None` leaves the cursor.
    pub fn recv<T>(&mut self, sender: &EventSender<T>) -> (r: Option<Arc<T>>)
        requires
            sender.wf(),
        ensures
            r == sender.entry(old(self).cursor() as int),
            final(self).cursor() == if r is Some {
                old(self).cursor() + 1
            } else {
                old(self).cursor() as int
            },
    {
        let inner = self.peek(sender);
        if inner.is_some() {
            self.next_index = self.next_index + 1;
        }
        inner
    }

    /// Reads every retained event from the cursor on, in send order.
    pub fn recv_all<T>(&mut self, sender: &EventSender<T>) -> (r: Vec<Arc<T>>)
        requires
            sender.wf(),
        ensures
            sender.front() <= old(self).cursor() <= sender.next() ==> drained(*sender, old(self).cursor(), final(self).cursor(), r@),
            !(sender.front() <= old(self).cursor() <= sender.next()) ==> {
                &&& r@.len() == 0
                &&& final(self).cursor() == old(self).cursor()
            },
    {
        let mut result: Vec<Arc<T>> = Vec::new();
        let ghost start = self.next_index;
        loop
            invariant
                sender.wf(),
                start == old(self).cursor(),
                sender.front() <= start <= sender.next() ==> start <= self.next_index <= sender.next()
                    && result@ == sender.retained().subrange(start - sender.front(), self.next_index - sender.front()),
                !(sender.front() <= start <= sender.next()) ==> self.next_index == start && result@.len() == 0,
            decreases sender.next() - self.next_index,
        {
            match self.recv(sender) {
                Some(event) => {
                    let ghost prev = result@;
                    result.push(event);
                    proof {
                        assert(result@ =~= sender.retained().subrange(start - sender.front(), self.next_index - sender.front()));
                    }
                },
                None => {
                    proof {
                        if sender.front() <= start <= sender.next() {
                            assert(self.next_index == sender.next());
                        }
                    }
                    return result;
                },
            }
        }
    }
}

/// Whether an event sent at `sent_at` is past its retention window at `now`.
pub open spec fn expired(sent_at: u64, now: u64, expiration: u64) -> bool {
    now > sent_at && now - sent_at > expiration
}

/// How many events at the front of `times` are past their window at `now`.
pub open spec fn expired_prefix(times: Seq<u64>, now: u64, expiration: u64) -> nat
    decreases times.len(),
{
    if times.len() == 0 {
        0
    } else if expired(times[0], now, expiration) {
        1 + expired_prefix(times.drop_first(), now, expiration)
    } else {
        0
    }
}

proof fn lemma_expired_prefix_bound(times: Seq<u64>, now: u64, expiration: u64)
    ensures
        expired_prefix(times, now, expiration) <= times.len(),
    decreases times.len(),
{
    if times.len() > 0 {
        lemma_expired_prefix_bound(times.drop_first(), now, expiration);
    }
}

/// The last event of `times`, sent at `now`, is never past its window.
proof fn lemma_live_tail(times: Seq<u64>, now: u64, expiration: u64)
    requires
        times.len() > 0,
        times.last() == now,
    ensures
        expired_prefix(times, now, expiration) < times.len(),
    decreases times.len(),
{
    if times.len() > 1 && expired(times[0], now, expiration) {
        assert(times.drop_first().last() == now);
        lemma_live_tail(times.drop_first(), now, expiration);
    }
}

fn is_expired(sent_at: u64, now: u64, expiration: u64) -> (r: bool)
    ensures
        r == expired(sent_at, now, expiration),
{
    now > sent_at && now - sent_at > expiration
}

impl<T> EventSender<T> {
    /// The retention window, in milliseconds.
    pub closed spec fn expiration(&self) -> u64 {
        self.event_expiration_time
    }

    /// The index the next sent event gets.
    pub closed spec fn next(&self) -> u32 {
        self.next_index
    }

    /// The retained events, oldest first.
    pub closed spec fn retained(&self) -> Seq<Arc<T>> {
        self.events@.map_values(|e: Event<T>| e.inner)
    }

    /// When each retained event was sent.
    pub closed spec fn sent_times(&self) -> Seq<u64> {
        self.events@.map_values(|e: Event<T>| e.sent_at)
    }

    /// The index of the oldest retained event.
    pub open spec fn front(&self) -> int {
        self.next() - self.retained().len()
    }

    /// The named receivers, with their cursors.
    pub closed spec fn named(&self) -> Seq<(Seq<char>, u32)> {
        self.named_receivers@.map_values(|p: (String, u32)| (p.0@, p.1))
    }

    /// How many receivers are live.
    pub closed spec fn subscriber_count(&self) -> u32 {
        self.subscribers
    }

    /// The event with index `i`, if it is still retained.
    pub open spec fn entry(&self, i: int) -> Option<Arc<T>> {
        if self.front() <= i < self.next() {
            Some(self.retained()[i - self.front()])
        } else {
            None
        }
    }

    pub closed spec fn wf(&self) -> bool {
        &&& self.events@.len() <= self.next_index
        &&& forall|k: int|
            0 <= k < self.events@.len() ==> (#[trigger] self.events@[k]).index == self.next_index - self.events@.len() + k
        &&& forall|a: int, b: int|
            0 <= a < b < self.named_receivers@.len() ==> (#[trigger] self.named_receivers@[a]).0@
                != (#[trigger] self.named_receivers@[b]).0@
    }

    /// A sender whose events stay retrievable for `event_expiration_time` milliseconds.
    pub fn new(event_expiration_time: u64) -> (r: EventSender<T>)
        ensures
            r.wf(),
            r.expiration() == event_expiration_time,
            r.next() == 0,
            r.retained() == Seq::<Arc<T>>::empty(),
            r.named() == Seq::<(Seq<char>, u32)>::empty(),
            r.subscriber_count() == 0,
    {
        let r = EventSender {
            event_expiration_time,
            events: std::collections::VecDeque::new(),
            named_receivers: Vec::new(),
            next_index: 0,
            subscribers: 0,
        };
        assert(r.retained() =~= Seq::<Arc<T>>::empty());
        assert(r.named() =~= Seq::<(Seq<char>, u32)>::empty());
        r
    }

    /// A sender with the default retention window.
    pub fn default_expiration() -> (r: EventSender<T>)
        ensures
            r.wf(),
            r.expiration() == DEFAULT_EXPIRATION_MILLIS,
            r.next() == 0,
            r.retained() == Seq::<Arc<T>>::empty(),
            r.named() == Seq::<(Seq<char>, u32)>::empty(),
            r.subscriber_count() == 0,
    {
        Self::new(DEFAULT_EXPIRATION_MILLIS)
    }

    /// The index the next sent event gets.
    pub fn next_event_index(&self) -> (r: u32)
        ensures
            r == self.next(),
    {
        self.next_index
    }

    /// The number of live receivers.
    pub fn receiver_count(&self) -> (r: u32)
        ensures
            r == self.subscriber_count(),
    {
        self.subscribers
    }

    /// Drops the events past their window at `now` from the front, then the
    /// named receivers whose cursor lies before the oldest retained event.
    pub fn clean(&mut self, now: u64)
        requires
            old(self).wf(),
        ensures
            final(self).wf(),
            final(self).expiration() == old(self).expiration(),
            final(self).next() == old(self).next(),
            ({
                let d = expired_prefix(old(self).sent_times(), now, old(self).expiration()) as int;
                &&& final(self).retained() == old(self).retained().subrange(d, old(self).retained().len() as int)
                &&& final(self).sent_times() == old(self).sent_times().subrange(d, old(self).sent_times().len() as int)
            }),
            forall|p: (Seq<char>, u32)| #[trigger] final(self).named().contains(p) == (old(self).named().contains(p)
                && p.1 >= final(self).front()),
            final(self).subscriber_count() <= old(self).subscriber_count(),
            final(self).subscriber_count() == old(self).subscriber_count() - (old(self).named().len() - final(self).named().len())
                || final(self).subscriber_count() == 0,
    {
        let ghost old_events = self.events@;
        let ghost old_times = self.sent_times();
        let ghost exp = self.event_expiration_time;
        let ghost mut popped: int = 0;
        proof {
            assert(self.sent_times().subrange(0, self.sent_times().len() as int) =~= self.sent_times());
        }
        while self.events.len() > 0 && is_expired(self.events[0].sent_at, now, self.event_expiration_time)
            invariant
                self.event_expiration_time == exp,
                self.next_index == old(self).next_index,
                self.named_receivers == old(self).named_receivers,
                self.subscribers == old(self).subscribers,
                0 <= popped <= old_events.len(),
                self.events@ == old_events.subrange(popped, old_events.len() as int),
                old_times == old_events.map_values(|e: Event<T>| e.sent_at),
                expired_prefix(old_times, now, exp) == popped + expired_prefix(self.sent_times(), now, exp),
                self.wf(),
            decreases self.events.len(),
        {
            let ghost cur = self.sent_times();
            proof {
                assert(cur[0] == self.events@[0].sent_at);
            }
            self.events.pop_front();
            proof { popped = popped + 1; }
            proof {
                assert(self.events@ =~= old_events.subrange(popped, old_events.len() as int));
                assert(self.sent_times() =~= cur.drop_first());
                assert forall|k: int| 0 <= k < self.events@.len() implies (#[trigger] self.events@[k]).index == self.next_index - self.events@.len() + k by {
                    assert(self.events@[k] == old_events[popped + k]);
                }
            }
        }
        proof {
            assert(expired_prefix(self.sent_times(), now, exp) == 0);
            assert(self.events@ =~= old_events.subrange(popped, old_events.len() as int));
            assert(self.retained() =~= old(self).retained().subrange(popped, old(self).retained().len() as int));
            assert(self.sent_times() =~= old_times.subrange(popped, old_times.len() as int));
        }
        let front = self.next_index - self.events.len() as u32;
        let mut kept: Vec<(String, u32)> = Vec::new();
        let mut removed: usize = 0;
        let mut i: usize = 0;
        let ghost old_named = self.named();
        let ghost mut origin: Seq<int> = Seq::empty();
        while i < self.named_receivers.len()
            invariant
                self.wf(),
                front == self.front(),
                old_named == self.named(),
                i <= self.named_receivers@.len(),
                removed <= i,
                kept@.len() + removed == i,
                origin.len() == kept@.len(),
                forall|k: int| 0 <= k < origin.len() ==> 0 <= #[trigger] origin[k] < i,
                forall|a: int, b: int| 0 <= a < b < origin.len() ==> #[trigger] origin[a] < #[trigger] origin[b],
                forall|k: int| 0 <= k < kept@.len() ==> (#[trigger] kept@[k]).0@ == self.named_receivers@[origin[k]].0@
                    && kept@[k].1 == self.named_receivers@[origin[k]].1,
                forall|k: int| 0 <= k < kept@.len() ==> (#[trigger] kept@[k]).1 >= front,
                forall|j: int| 0 <= j < i && self.named_receivers@[j].1 >= front ==> exists|k: int|
                    0 <= k < origin.len() && #[trigger] origin[k] == j,
            decreases self.named_receivers.len() - i,
        {
            let ghost prev_origin = origin;
            if self.named_receivers[i].1 >= front {
                let name = self.named_receivers[i].0.clone();
                kept.push((name, self.named_receivers[i].1));
                proof { origin = origin.push(i as int); }
            } else {
                removed = removed + 1;
            }
            proof {
                assert forall|j: int| 0 <= j < i + 1 && self.named_receivers@[j].1 >= front implies exists|k: int|
                    0 <= k < origin.len() && #[trigger] origin[k] == j by {
                    if j == i {
                        assert(origin[origin.len() - 1] == j);
                    } else {
                        let k = choose|k: int| 0 <= k < prev_origin.len() && #[trigger] prev_origin[k] == j;
                        assert(origin[k] == prev_origin[k]);
                    }
                }
            }
            i = i + 1;
        }
        let ghost old_receivers = self.named_receivers@;
        self.named_receivers = kept;
        self.subscribers = if self.subscribers as usize >= removed {
            self.subscribers - removed as u32
        } else {
            0
        };
        proof {
            assert(self.named().len() == old_named.len() - removed);
            assert forall|a: int, b: int|
                0 <= a < b < self.named_receivers@.len() implies (#[trigger] self.named_receivers@[a]).0@
                    != (#[trigger] self.named_receivers@[b]).0@ by {
                assert(origin[a] < origin[b]);
            }
            assert forall|p: (Seq<char>, u32)| #[trigger] self.named().contains(p) == (old_named.contains(p) && p.1 >= self.front()) by {
                if self.named().contains(p) {
                    let k = choose|k: int| 0 <= k < self.named().len() && self.named()[k] == p;
                    assert(old_named[origin[k]] == p);
                }
                if old_named.contains(p) && p.1 >= self.front() {
                    let j = choose|j: int| 0 <= j < old_named.len() && old_named[j] == p;
                    assert(old_receivers[j].1 >= front);
                    let k = choose|k: int| 0 <= k < origin.len() && #[trigger] origin[k] == j;
                    assert(self.named()[k] == p);
                }
            }
        }
    }

    /// Appends `event`, sent at `now`, with the next index, then cleans.
    pub fn send(&mut self, event: T, now: u64)
        requires
            old(self).wf(),
            old(self).next() < u32::MAX,
        ensures
            final(self).wf(),
            final(self).expiration() == old(self).expiration(),
            final(self).next() == old(self).next() + 1,
            ({
                let all = old(self).retained().push(Arc::new(event));
                let times = old(self).sent_times().push(now);
                let d = expired_prefix(times, now, old(self).expiration()) as int;
                &&& final(self).retained() == all.subrange(d, all.len() as int)
                &&& final(self).sent_times() == times.subrange(d, times.len() as int)
            }),
            final(self).retained().len() > 0,
            final(self).entry(old(self).next() as int) == Some(Arc::new(event)),
            forall|p: (Seq<char>, u32)| #[trigger] final(self).named().contains(p) == (old(self).named().contains(p)
                && p.1 >= final(self).front()),
            final(self).subscriber_count() <= old(self).subscriber_count(),
    {
        let ghost e = Arc::new(event);
        let index = self.next_index;
        self.events.push_back(Event { inner: Arc::new(event), sent_at: now, index });
        self.next_index = self.next_index + 1;
        let ghost mid = *self;
        proof {
            assert(self.retained() =~= old(self).retained().push(e));
            assert(self.sent_times() =~= old(self).sent_times().push(now));
            assert(self.named() == old(self).named());
            lemma_expired_prefix_bound(self.sent_times(), now, self.event_expiration_time);
            lemma_live_tail(self.sent_times(), now, self.event_expiration_time);
        }
        self.clean(now);
    }

    /// A new receiver that sees only events sent from now on.
    pub fn subscribe(&mut self) -> (r: EventReceiver)
        requires
            old(self).wf(),
        ensures
            final(self).wf(),
            r.cursor() == old(self).next(),
            final(self).expiration() == old(self).expiration(),
            final(self).next() == old(self).next(),
            final(self).retained() == old(self).retained(),
            final(self).sent_times() == old(self).sent_times(),
            final(self).named() == old(self).named(),
            final(self).subscriber_count() == if old(self).subscriber_count() < u32::MAX {
                old(self).subscriber_count() + 1
            } else {
                old(self).subscriber_count() as int
            },
    {
        if self.subscribers < u32::MAX {
            self.subscribers = self.subscribers + 1;
        }
        EventReceiver { next_index: self.next_index }
    }

    /// The cursor kept under `name`, if the name is registered.
    pub open spec fn named_cursor(&self, name: Seq<char>) -> Option<u32> {
        if exists|k: int| 0 <= k < self.named().len() && (#[trigger] self.named()[k]).0 == name {
            Some(self.named()[choose|k: int| 0 <= k < self.named().len() && (#[trigger] self.named()[k]).0 == name].1)
        } else {
            None
        }
    }

    /// The position of `name` among the named cursors.
    fn find_named(&self, name: &String) -> (r: Option<usize>)
        requires
            self.wf(),
        ensures
            r is None ==> self.named_cursor(name@) is None,
            r is Some ==> r->0 < self.named().len() && self.named()[r->0 as int].0 == name@
                && self.named_cursor(name@) == Some(self.named()[r->0 as int].1),
    {
        let mut i: usize = 0;
        while i < self.named_receivers.len()
            invariant
                self.wf(),
                i <= self.named_receivers@.len(),
                forall|k: int| 0 <= k < i ==> (#[trigger] self.named_receivers@[k]).0@ != name@,
            decreases self.named_receivers.len() - i,
        {
            if self.named_receivers[i].0 == *name {
                proof {
                    assert(self.named()[i as int].0 == name@);
                    let k = choose|k: int| 0 <= k < self.named().len() && (#[trigger] self.named()[k]).0 == name@;
                    assert(self.named_receivers@[k].0@ == self.named_receivers@[i as int].0@);
                }
                return Some(i);
            }
            i = i + 1;
        }
        proof {
            assert forall|k: int| 0 <= k < self.named().len() implies (#[trigger] self.named()[k]).0 != name@ by {
                assert(self.named()[k].0 == self.named_receivers@[k].0@);
            }
        }
        None
    }

    /// A handle to the one cursor kept under `name`; the cursor is made now, at
    /// the next index, if the name is new, and one more receiver counts as live.
    pub fn named_receiver(&mut self, name: String) -> (r: NamedReceiver)
        requires
            old(self).wf(),
        ensures
            final(self).wf(),
            r.name() == name@,
            final(self).expiration() == old(self).expiration(),
            final(self).next() == old(self).next(),
            final(self).retained() == old(self).retained(),
            final(self).sent_times() == old(self).sent_times(),
            old(self).named_cursor(name@) is Some ==> final(self).named() == old(self).named()
                && final(self).subscriber_count() == old(self).subscriber_count(),
            old(self).named_cursor(name@) is None ==> final(self).named() == old(self).named().push((name@, old(self).next()))
                && final(self).subscriber_count() == if old(self).subscriber_count() < u32::MAX {
                    old(self).subscriber_count() + 1
                } else {
                    old(self).subscriber_count() as int
                },
            final(self).named_cursor(name@) == if old(self).named_cursor(name@) is Some {
                old(self).named_cursor(name@)
            } else {
                Some(old(self).next())
            },
    {
        match self.find_named(&name) {
            Some(_) => {
                return NamedReceiver { name };
            },
            None => {},
        }
        let handle_name = name.clone();
        self.named_receivers.push((name, self.next_index));
        if self.subscribers < u32::MAX {
            self.subscribers = self.subscribers + 1;
        }
        proof {
            assert(self.named() =~= old(self).named().push((handle_name@, old(self).next())));
            assert forall|a: int, b: int|
                0 <= a < b < self.named_receivers@.len() implies (#[trigger] self.named_receivers@[a]).0@
                    != (#[trigger] self.named_receivers@[b]).0@ by {
                if b == self.named_receivers@.len() - 1 {
                    assert(old(self).named()[a].0 == self.named_receivers@[a].0@);
                }
            }
            let n = self.named().len() - 1;
            assert(self.named()[n].0 == handle_name@);
            let k = choose|k: int| 0 <= k < self.named().len() && (#[trigger] self.named()[k]).0 == handle_name@;
            if k != n {
                assert(self.named()[k].0 == self.named_receivers@[k].0@);
            }
        }
        NamedReceiver { name: handle_name }
    }

    /// Reads the event at the named cursor and advances that cursor; `None`
    /// where there is none, or where the name is no longer registered.
    pub fn recv_named(&mut self, receiver: &NamedReceiver) -> (r: Option<Arc<T>>)
        requires
            old(self).wf(),
        ensures
            final(self).wf(),
            final(self).expiration() == old(self).expiration(),
            final(self).next() == old(self).next(),
            final(self).retained() == old(self).retained(),
            final(self).sent_times() == old(self).sent_times(),
            final(self).subscriber_count() == old(self).subscriber_count(),
            final(self).named().len() == old(self).named().len(),
            r == match old(self).named_cursor(receiver.name()) {
                Some(c) => old(self).entry(c as int),
                None => None,
            },
            final(self).named_cursor(receiver.name()) == match old(self).named_cursor(receiver.name()) {
                Some(c) => if r is Some {
                    Some((c + 1) as u32)
                } else {
                    Some(c)
                },
                None => None,
            },
            forall|n: Seq<char>| n != receiver.name() ==> #[trigger] final(self).named_cursor(n) == old(self).named_cursor(n),
    {
        let i = match self.find_named(&receiver.name) {
            Some(i) => i,
            None => {
                return None;
            },
        };
        let c = self.named_receivers[i].1;
        let len = self.events.len();
        let front = self.next_index - len as u32;
        if c < front || c >= self.next_index {
            return None;
        }
        let r = Arc::clone(&self.events[(c - front) as usize].inner);
        let ghost before = *self;
        let mut slot: (String, u32) = (String::new(), 0);
        self.named_receivers.set_and_swap(i, &mut slot);
        slot.1 = c + 1;
        self.named_receivers.set_and_swap(i, &mut slot);
        proof {
            assert(self.named() =~= before.named().update(i as int, (receiver.name(), (c + 1) as u32)));
            assert forall|a: int, b: int|
                0 <= a < b < self.named_receivers@.len() implies (#[trigger] self.named_receivers@[a]).0@
                    != (#[trigger] self.named_receivers@[b]).0@ by {
                assert(self.named()[a].0 == before.named()[a].0);
                assert(self.named()[b].0 == before.named()[b].0);
                assert(before.named()[a].0 == before.named_receivers@[a].0@);
                assert(before.named()[b].0 == before.named_receivers@[b].0@);
            }
            let nm = receiver.name();
            assert(self.named()[i as int].0 == nm);
            let k = choose|k: int| 0 <= k < self.named().len() && (#[trigger] self.named()[k]).0 == nm;
            if k != i {
                assert(self.named()[k] == before.named()[k]);
                assert(before.named()[k].0 == nm);
                assert(before.named()[k].0 == before.named_receivers@[k].0@);
                assert(before.named()[i as int].0 == before.named_receivers@[i as int].0@);
                assert(before.named_receivers@[k].0@ == before.named_receivers@[i as int].0@);
            }
            assert forall|n: Seq<char>| n != nm implies #[trigger] self.named_cursor(n) == before.named_cursor(n) by {
                if exists|k: int| 0 <= k < self.named().len() && (#[trigger] self.named()[k]).0 == n {
                    let k = choose|k: int| 0 <= k < self.named().len() && (#[trigger] self.named()[k]).0 == n;
                    assert(before.named()[k].0 == n);
                    let k2 = choose|k: int| 0 <= k < before.named().len() && (#[trigger] before.named()[k]).0 == n;
                    assert(self.named()[k2].0 == n);
                    assert(before.named_receivers@[k].0@ == before.named_receivers@[k2].0@);
                }
                if exists|k: int| 0 <= k < before.named().len() && (#[trigger] before.named()[k]).0 == n {
                    let k2 = choose|k: int| 0 <= k < before.named().len() && (#[trigger] before.named()[k]).0 == n;
                    assert(self.named()[k2].0 == n);
                }
            }
        }
        Some(r)
    }

    /// Reads every retained event from the named cursor on, in send order.
    pub fn recv_all_named(&mut self, receiver: &NamedReceiver) -> (r: Vec<Arc<T>>)
        requires
            old(self).wf(),
        ensures
            final(self).wf(),
            final(self).retained() == old(self).retained(),
            final(self).next() == old(self).next(),
            final(self).named().len() == old(self).named().len(),
            forall|n: Seq<char>| n != receiver.name() ==> #[trigger] final(self).named_cursor(n) == old(self).named_cursor(n),
            old(self).named_cursor(receiver.name()) is None ==> r@.len() == 0
                && final(self).named_cursor(receiver.name()) is None,
            old(self).named_cursor(receiver.name()) is Some ==> ({
                let c = old(self).named_cursor(receiver.name())->0;
                &&& old(self).front() <= c <= old(self).next() ==> drained(*old(self), c, final(self).named_cursor(receiver.name())->0, r@)
                &&& !(old(self).front() <= c <= old(self).next()) ==> r@.len() == 0
                    && final(self).named_cursor(receiver.name()) == Some(c)
                &&& final(self).named_cursor(receiver.name()) is Some
            }),
    {
        let mut result: Vec<Arc<T>> = Vec::new();
        let ghost start = old(self).named_cursor(receiver.name());
        loop
            invariant
                self.wf(),
                self.retained() == old(self).retained(),
                self.next() == old(self).next(),
                self.sent_times() == old(self).sent_times(),
                self.named().len() == old(self).named().len(),
                start == old(self).named_cursor(receiver.name()),
                forall|n: Seq<char>| n != receiver.name() ==> #[trigger] self.named_cursor(n) == old(self).named_cursor(n),
                start is None ==> self.named_cursor(receiver.name()) is None && result@.len() == 0,
                start is Some ==> self.named_cursor(receiver.name()) is Some,
                start is Some && old(self).front() <= start->0 <= old(self).next() ==> start->0 <= self.named_cursor(receiver.name())->0
                    <= old(self).next() && result@ == old(self).retained().subrange(
                    start->0 - old(self).front(),
                    self.named_cursor(receiver.name())->0 - old(self).front(),
                ),
                start is Some && !(old(self).front() <= start->0 <= old(self).next()) ==> self.named_cursor(receiver.name())
                    == start && result@.len() == 0,
            decreases old(self).next() - (if self.named_cursor(receiver.name()) is Some {
                self.named_cursor(receiver.name())->0 as int
            } else {
                old(self).next() as int
            }),
        {
            match self.recv_named(receiver) {
                Some(event) => {
                    result.push(event);
                    proof {
                        assert(result@ =~= old(self).retained().subrange(
                            start->0 - old(self).front(),
                            self.named_cursor(receiver.name())->0 - old(self).front(),
                        ));
                    }
                },
                None => {
                    return result;
                },
            }
        }
    }

    /// Gives up a receiver: it no longer counts as live.
    pub fn unsubscribe(&mut self, receiver: EventReceiver)
        requires
            old(self).wf(),
        ensures
            final(self).wf(),
            final(self).expiration() == old(self).expiration(),
            final(self).next() == old(self).next(),
            final(self).retained() == old(self).retained(),
            final(self).sent_times() == old(self).sent_times(),
            final(self).named() == old(self).named(),
            final(self).subscriber_count() == if old(self).subscriber_count() > 0 {
                old(self).subscriber_count() - 1
            } else {
                0
            },
    {
        if self.subscribers > 0 {
            self.subscribers = self.subscribers - 1;
        }
    }
}

/// Reading all available events in one go, from cursor `c0` to `c1`, yields `r`.
pub open spec fn drained<T>(sender: EventSender<T>, c0: u32, c1: u32, r: Seq<Arc<T>>) -> bool {
    &&& r == sender.retained().subrange(c0 - sender.front(), sender.retained().len() as int)
    &&& c1 == sender.next()
}

/// Two successive `recv_all` calls on a receiver that stays within the
/// retention window return the events with indices `c0`, `c0 + 1`, ... in send
/// order, each once: the second call starts right after the last event of the first.
pub proof fn lemma_recv_all_in_order<T>(
    s1: EventSender<T>,
    s2: EventSender<T>,
    c0: u32,
    c1: u32,
    c2: u32,
    r1: Seq<Arc<T>>,
    r2: Seq<Arc<T>>,
)
    requires
        s1.wf(),
        s2.wf(),
        s1.front() <= c0 <= s1.next(),
        s2.front() <= c1 <= s2.next(),
        drained(s1, c0, c1, r1),
        drained(s2, c1, c2, r2),
    ensures
        r1.len() == c1 - c0,
        r2.len() == c2 - c1,
        forall|k: int| 0 <= k < r1.len() ==> s1.entry(c0 + k) == Some(#[trigger] r1[k]),
        forall|k: int| 0 <= k < r2.len() ==> s2.entry(c1 + k) == Some(#[trigger] r2[k]),
{
}

} // verus!
