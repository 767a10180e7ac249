//! Reactive signals.
//!
//! A `Runtime` owns every signal cell, the stack of subscribers that are
//! currently running, and the queue of nodes that wait to be marked dirty.
//! Reading a signal while a subscriber is running subscribes it; writing a
//! signal queues each subscribed node and hands back the subscribed effects,
//! which the caller runs, each between `begin_effect` and `end_effect`.

use vstd::prelude::*;
use std::marker::PhantomData;

verus! {

/// The identity of a node of the widget tree, as the signals know it.
#[derive(Debug, Copy, Clone, PartialEq, Eq, Hash, Structural)]
pub struct NodeId(u64);

/// The identity of an effect.
#[derive(Debug, Copy, Clone, PartialEq, Eq, Hash, Structural)]
pub struct EffectId(u64);

/// Who is told when a signal is written.
#[derive(Debug, Copy, Clone, PartialEq, Eq, Hash, Structural)]
pub enum Subscriber {
    Node(NodeId),
    Effect(EffectId),
}

/// The nodes among `subs`, in the order in which they subscribed.
pub open spec fn node_ids(subs: Seq<Subscriber>) -> Seq<NodeId>
    decreases subs.len(),
{
    if subs.len() == 0 {
        Seq::empty()
    } else {
        match subs.last() {
            Subscriber::Node(id) => node_ids(subs.drop_last()).push(id),
            Subscriber::Effect(_) => node_ids(subs.drop_last()),
        }
    }
}

/// The effects among `subs`, in the order in which they subscribed.
pub open spec fn effect_ids(subs: Seq<Subscriber>) -> Seq<EffectId>
    decreases subs.len(),
{
    if subs.len() == 0 {
        Seq::empty()
    } else {
        match subs.last() {
            Subscriber::Node(_) => effect_ids(subs.drop_last()),
            Subscriber::Effect(id) => effect_ids(subs.drop_last()).push(id),
        }
    }
}

/// `subs` with `who` among them: added at the end unless already there.
pub open spec fn subscribed(subs: Seq<Subscriber>, who: Subscriber) -> Seq<Subscriber> {
    if subs.contains(who) {
        subs
    } else {
        subs.push(who)
    }
}

/// What a read does to the subscribers of the signal read: the subscriber
/// on top of `stack`, if there is one, is among them afterwards.
pub open spec fn after_read(subs: Seq<Subscriber>, stack: Seq<Subscriber>) -> Seq<Subscriber> {
    if stack.len() == 0 {
        subs
    } else {
        subscribed(subs, stack.last())
    }
}

/// What a write does to the queue of dirty nodes: every subscribed node
/// is appended once. Without a queue the notifications are dropped.
pub open spec fn after_notify(queue: Option<Seq<NodeId>>, subs: Seq<Subscriber>) -> Option<
    Seq<NodeId>,
> {
    match queue {
        Some(q) => Some(q + node_ids(subs)),
        None => None,
    }
}

/// The identifier that follows `n`. After the last one the count starts
/// again at zero.
pub open spec fn next_id(n: u64) -> u64 {
    if n == u64::MAX {
        0
    } else {
        (n + 1) as u64
    }
}

impl NodeId {
    /// The number that stands for this node.
    pub closed spec fn value(self) -> u64 {
        self.0
    }

    /// The number that stands for this node.
    pub fn raw(&self) -> (n: u64)
        ensures
            n == self.value(),
    {
        self.0
    }

    /// A node identifier that no earlier call on `rt` has returned, until
    /// the 64-bit count wraps around.
    pub fn new<V>(rt: &mut Runtime<V>) -> (id: NodeId)
        ensures
            id.value() == old(rt).next_node_id(),
            final(rt).next_node_id() == next_id(old(rt).next_node_id()),
            final(rt).same_signals(*old(rt)),
            final(rt).stack() == old(rt).stack(),
            final(rt).dirty_queue() == old(rt).dirty_queue(),
            final(rt).next_effect_id() == old(rt).next_effect_id(),
    {
        let n = rt.next_node;
        rt.next_node = n.wrapping_add(1);
        NodeId(n)
    }
}

impl EffectId {
    /// The number that stands for this effect.
    pub closed spec fn value(self) -> u64 {
        self.0
    }

    /// The number that stands for this effect.
    pub fn raw(&self) -> (n: u64)
        ensures
            n == self.value(),
    {
        self.0
    }

    /// An effect identifier that no earlier call on `rt` has returned,
    /// until the 64-bit count wraps around.
    pub fn new<V>(rt: &mut Runtime<V>) -> (id: EffectId)
        ensures
            id.value() == old(rt).next_effect_id(),
            final(rt).next_effect_id() == next_id(old(rt).next_effect_id()),
            final(rt).same_signals(*old(rt)),
            final(rt).stack() == old(rt).stack(),
            final(rt).dirty_queue() == old(rt).dirty_queue(),
            final(rt).next_node_id() == old(rt).next_node_id(),
    {
        let n = rt.next_effect;
        rt.next_effect = n.wrapping_add(1);
        EffectId(n)
    }
}

/// The subscribers of one signal: a set, kept in the order of subscription.
struct SubscriberSet {
    items: Vec<Subscriber>,
}

impl SubscriberSet {
    #[verifier::type_invariant]
    spec fn distinct(self) -> bool {
        self.items@.no_duplicates()
    }

    closed spec fn view(self) -> Seq<Subscriber> {
        self.items@
    }

    fn new() -> (set: SubscriberSet)
        ensures
            set@ == Seq::<Subscriber>::empty(),
    {
        SubscriberSet { items: Vec::new() }
    }

    fn len(&self) -> (n: usize)
        ensures
            n == self@.len(),
            self@.no_duplicates(),
    {
        proof {
            use_type_invariant(self);
        }
        self.items.len()
    }

    fn get(&self, i: usize) -> (who: Subscriber)
        requires
            i < self@.len(),
        ensures
            who == self@[i as int],
    {
        self.items[i]
    }

    fn contains(&self, who: Subscriber) -> (found: bool)
        ensures
            found == self@.contains(who),
    {
        let mut i: usize = 0;
        while i < self.items.len()
            invariant
                i <= self.items.len(),
                forall|j: int| 0 <= j < i ==> self.items@[j] != who,
            decreases self.items.len() - i,
        {
            if self.items[i] == who {
                return true;
            }
            i += 1;
        }
        false
    }

    fn insert(&mut self, who: Subscriber)
        ensures
            final(self)@ == subscribed(old(self)@, who),
            final(self)@.no_duplicates(),
    {
        proof {
            use_type_invariant(&*self);
        }
        if !self.contains(who) {
            let mut items: Vec<Subscriber> = Vec::new();
            std::mem::swap(&mut self.items, &mut items);
            proof {
                lemma_push_distinct(items@, who);
            }
            items.push(who);
            self.items = items;
        }
    }
}

struct SignalInner<V> {
    value: V,
    subscribers: SubscriberSet,
}

/// The state of the reactive graph.
pub struct Runtime<V> {
    signals: Vec<SignalInner<V>>,
    stack: Vec<Subscriber>,
    dirty: Option<Vec<NodeId>>,
    next_node: u64,
    next_effect: u64,
}

impl<V> Runtime<V> {
    /// How many signals have been created.
    pub closed spec fn signal_count(self) -> nat {
        self.signals@.len()
    }

    /// The value that signal number `i` holds.
    pub closed spec fn value_of(self, i: int) -> V {
        self.signals@[i].value
    }

    /// The subscribers of signal number `i`, in the order in which they
    /// subscribed.
    pub closed spec fn subscribers_of(self, i: int) -> Seq<Subscriber> {
        self.signals@[i].subscribers@
    }

    /// The subscribers that are running, the innermost last.
    pub closed spec fn stack(self) -> Seq<Subscriber> {
        self.stack@
    }

    /// The nodes that wait to be marked dirty, the oldest first; `None`
    /// until `init_reactivity` has opened the queue.
    pub closed spec fn dirty_queue(self) -> Option<Seq<NodeId>> {
        match self.dirty {
            Some(q) => Some(q@),
            None => None,
        }
    }

    /// The number of the next node identifier.
    pub closed spec fn next_node_id(self) -> u64 {
        self.next_node
    }

    /// The number of the next effect identifier.
    pub closed spec fn next_effect_id(self) -> u64 {
        self.next_effect
    }

    /// `self` holds the signals of `before`, each with the same value and
    /// the same subscribers.
    pub open spec fn same_signals(self, before: Runtime<V>) -> bool {
        &&& self.signal_count() == before.signal_count()
        &&& forall|i: int|
            0 <= i < before.signal_count() ==> #[trigger] self.value_of(i) == before.value_of(i)
        &&& forall|i: int|
            0 <= i < before.signal_count() ==> #[trigger] self.subscribers_of(i)
                == before.subscribers_of(i)
    }

    /// `self` holds the signals of `before` but for signal number `k`.
    pub open spec fn same_signals_but(self, before: Runtime<V>, k: int) -> bool {
        &&& self.signal_count() == before.signal_count()
        &&& forall|i: int|
            0 <= i < before.signal_count() && i != k ==> #[trigger] self.value_of(i)
                == before.value_of(i)
        &&& forall|i: int|
            0 <= i < before.signal_count() && i != k ==> #[trigger] self.subscribers_of(i)
                == before.subscribers_of(i)
    }

    /// A runtime without signals, with no subscriber running and without
    /// a queue of dirty nodes.
    pub fn new() -> (rt: Runtime<V>)
        ensures
            rt.signal_count() == 0,
            rt.stack() == Seq::<Subscriber>::empty(),
            rt.dirty_queue().is_none(),
            rt.next_node_id() == 0,
            rt.next_effect_id() == 0,
    {
        Runtime {
            signals: Vec::new(),
            stack: Vec::new(),
            dirty: None,
            next_node: 0,
            next_effect: 0,
        }
    }
}


impl<V> Runtime<V> {
    /// Takes every waiting node out of the queue of dirty nodes, the
    /// oldest first. Without a queue there is nothing to take.
    pub fn drain_dirty(&mut self) -> (waiting: Vec<NodeId>)
        ensures
            waiting@ == match old(self).dirty_queue() {
                Some(q) => q,
                None => Seq::empty(),
            },
            final(self).dirty_queue() == match old(self).dirty_queue() {
                Some(_) => Some(Seq::<NodeId>::empty()),
                None => None::<Seq<NodeId>>,
            },
            final(self).same_signals(*old(self)),
            final(self).stack() == old(self).stack(),
            final(self).next_node_id() == old(self).next_node_id(),
            final(self).next_effect_id() == old(self).next_effect_id(),
    {
        let mut taken: Option<Vec<NodeId>> = None;
        std::mem::swap(&mut self.dirty, &mut taken);
        match taken {
            Some(q) => {
                self.dirty = Some(Vec::new());
                q
            },
            None => Vec::new(),
        }
    }

    /// Makes `who` the running subscriber: until the matching
    /// `leave`, every signal read subscribes it.
    pub fn enter(&mut self, who: Subscriber)
        ensures
            final(self).stack() == old(self).stack().push(who),
            final(self).same_signals(*old(self)),
            final(self).dirty_queue() == old(self).dirty_queue(),
            final(self).next_node_id() == old(self).next_node_id(),
            final(self).next_effect_id() == old(self).next_effect_id(),
    {
        self.stack.push(who);
    }

    /// Ends the run of the innermost subscriber. With no subscriber
    /// running nothing changes.
    pub fn leave(&mut self)
        ensures
            final(self).stack() == if old(self).stack().len() > 0 {
                old(self).stack().drop_last()
            } else {
                old(self).stack()
            },
            final(self).same_signals(*old(self)),
            final(self).dirty_queue() == old(self).dirty_queue(),
            final(self).next_node_id() == old(self).next_node_id(),
            final(self).next_effect_id() == old(self).next_effect_id(),
    {
        let _ = self.stack.pop();
    }

    /// Starts a run of effect `id`: until `end_effect`, every signal
    /// read subscribes the effect.
    pub fn begin_effect(&mut self, id: EffectId)
        ensures
            final(self).stack() == old(self).stack().push(Subscriber::Effect(id)),
            final(self).same_signals(*old(self)),
            final(self).dirty_queue() == old(self).dirty_queue(),
            final(self).next_node_id() == old(self).next_node_id(),
            final(self).next_effect_id() == old(self).next_effect_id(),
    {
        self.enter(Subscriber::Effect(id));
    }

    /// Ends the run of the innermost subscriber.
    pub fn end_effect(&mut self)
        ensures
            final(self).stack() == if old(self).stack().len() > 0 {
                old(self).stack().drop_last()
            } else {
                old(self).stack()
            },
            final(self).same_signals(*old(self)),
            final(self).dirty_queue() == old(self).dirty_queue(),
            final(self).next_node_id() == old(self).next_node_id(),
            final(self).next_effect_id() == old(self).next_effect_id(),
    {
        self.leave();
    }
}

/// Opens the queue of dirty nodes. From now on a write queues every
/// subscribed node; before, such notifications are dropped. A queue that
/// was open already is replaced by an empty one.
pub fn init_reactivity<V>(rt: &mut Runtime<V>)
    ensures
        final(rt).dirty_queue() == Some(Seq::<NodeId>::empty()),
        final(rt).same_signals(*old(rt)),
        final(rt).stack() == old(rt).stack(),
        final(rt).next_node_id() == old(rt).next_node_id(),
        final(rt).next_effect_id() == old(rt).next_effect_id(),
{
    rt.dirty = Some(Vec::new());
}

/// The handle that reads a signal.
pub struct ReadSignal<T> {
    index: usize,
    marker: PhantomData<T>,
}

/// The handle that writes a signal.
pub struct WriteSignal<T> {
    index: usize,
    marker: PhantomData<T>,
}

impl<T> Clone for ReadSignal<T> {
    fn clone(&self) -> (r: Self)
        ensures
            r == *self,
    {
        ReadSignal { index: self.index, marker: PhantomData }
    }
}

impl<T> Copy for ReadSignal<T> {

}

impl<T> Clone for WriteSignal<T> {
    fn clone(&self) -> (r: Self)
        ensures
            r == *self,
    {
        WriteSignal { index: self.index, marker: PhantomData }
    }
}

impl<T> Copy for WriteSignal<T> {

}

/// A new signal that holds `value` and has no subscriber, and the two
/// handles to it.
pub fn create_signal<V>(rt: &mut Runtime<V>, value: V) -> (handles: (ReadSignal<V>, WriteSignal<V>))
    ensures
        handles.0.number() == old(rt).signal_count(),
        handles.1.number() == old(rt).signal_count(),
        final(rt).signal_count() == old(rt).signal_count() + 1,
        final(rt).value_of(old(rt).signal_count() as int) == value,
        final(rt).subscribers_of(old(rt).signal_count() as int) == Seq::<Subscriber>::empty(),
        forall|i: int|
            0 <= i < old(rt).signal_count() ==> #[trigger] final(rt).value_of(i) == old(
                rt,
            ).value_of(i),
        forall|i: int|
            0 <= i < old(rt).signal_count() ==> #[trigger] final(rt).subscribers_of(i) == old(
                rt,
            ).subscribers_of(i),
        final(rt).stack() == old(rt).stack(),
        final(rt).dirty_queue() == old(rt).dirty_queue(),
        final(rt).next_node_id() == old(rt).next_node_id(),
        final(rt).next_effect_id() == old(rt).next_effect_id(),
{
    let index = rt.signals.len();
    rt.signals.push(SignalInner { value, subscribers: SubscriberSet::new() });
    (ReadSignal { index, marker: PhantomData }, WriteSignal { index, marker: PhantomData })
}

impl<T> ReadSignal<T> {
    /// The number of the signal that this handle reads.
    pub closed spec fn number(self) -> nat {
        self.index as nat
    }

    /// Whether the handle is one of `rt`: every handle that `rt` has
    /// given out is, for a signal is never taken away.
    pub fn belongs_to(&self, rt: &Runtime<T>) -> (known: bool)
        ensures
            known == (self.number() < rt.signal_count()),
    {
        self.index < rt.signals.len()
    }

    /// A copy of the signal's value. The subscriber that is running, if
    /// there is one, is a subscriber of the signal from now on: once,
    /// however often it reads.
    pub fn get(&self, rt: &mut Runtime<T>) -> (value: T) where T: Clone
        requires
            self.number() < old(rt).signal_count(),
        ensures
            cloned::<T>(old(rt).value_of(self.number() as int), value),
            final(rt).value_of(self.number() as int) == old(rt).value_of(self.number() as int),
            final(rt).subscribers_of(self.number() as int) == after_read(
                old(rt).subscribers_of(self.number() as int),
                old(rt).stack(),
            ),
            final(rt).subscribers_of(self.number() as int).no_duplicates(),
            final(rt).same_signals_but(*old(rt), self.number() as int),
            final(rt).stack() == old(rt).stack(),
            final(rt).dirty_queue() == old(rt).dirty_queue(),
            final(rt).next_node_id() == old(rt).next_node_id(),
            final(rt).next_effect_id() == old(rt).next_effect_id(),
    {
        let depth = rt.stack.len();
        if depth > 0 {
            let who = rt.stack[depth - 1];
            rt.signals[self.index].subscribers.insert(who);
        } else {
            let _ = rt.signals[self.index].subscribers.len();
        }
        rt.signals[self.index].value.clone()
    }
}


impl<T> WriteSignal<T> {
    /// The number of the signal that this handle writes.
    pub closed spec fn number(self) -> nat {
        self.index as nat
    }

    /// Whether the handle is one of `rt`.
    pub fn belongs_to(&self, rt: &Runtime<T>) -> (known: bool)
        ensures
            known == (self.number() < rt.signal_count()),
    {
        self.index < rt.signals.len()
    }

    /// Tells the subscribers of the signal that it was written. Every
    /// subscribed node is appended to the queue of dirty nodes, once and in
    /// the order of subscription. The subscribed effects are returned, each
    /// once and in that order: the caller runs them now.
    pub fn notify_subscribers(&self, rt: &mut Runtime<T>) -> (pending: Vec<EffectId>)
        requires
            self.number() < old(rt).signal_count(),
        ensures
            pending@ == effect_ids(old(rt).subscribers_of(self.number() as int)),
            pending@.no_duplicates(),
            node_ids(old(rt).subscribers_of(self.number() as int)).no_duplicates(),
            final(rt).dirty_queue() == after_notify(
                old(rt).dirty_queue(),
                old(rt).subscribers_of(self.number() as int),
            ),
            final(rt).same_signals(*old(rt)),
            final(rt).stack() == old(rt).stack(),
            final(rt).next_node_id() == old(rt).next_node_id(),
            final(rt).next_effect_id() == old(rt).next_effect_id(),
    {
        let mut nodes: Vec<NodeId> = Vec::new();
        let mut effects: Vec<EffectId> = Vec::new();
        let ghost subs = rt.signals@[self.index as int].subscribers@;
        let n = rt.signals[self.index].subscribers.len();
        proof {
            lemma_fan_out_distinct(subs);
        }
        let mut i: usize = 0;
        while i < n
            invariant
                i <= n,
                self.index < rt.signals@.len(),
                subs == rt.signals@[self.index as int].subscribers@,
                n == subs.len(),
                nodes@ == node_ids(subs.take(i as int)),
                effects@ == effect_ids(subs.take(i as int)),
            decreases n - i,
        {
            proof {
                assert(subs.take(i + 1).drop_last() == subs.take(i as int));
                assert(subs.take(i + 1).last() == subs[i as int]);
            }
            match rt.signals[self.index].subscribers.get(i) {
                Subscriber::Node(id) => {
                    nodes.push(id);
                },
                Subscriber::Effect(id) => {
                    effects.push(id);
                },
            }
            i += 1;
        }
        proof {
            assert(subs.take(n as int) == subs);
        }
        let mut queue: Option<Vec<NodeId>> = None;
        std::mem::swap(&mut rt.dirty, &mut queue);
        match queue {
            Some(mut q) => {
                q.append(&mut nodes);
                rt.dirty = Some(q);
            },
            None => {},
        }
        effects
    }

    /// Replaces the signal's value and tells its subscribers, as
    /// `notify_subscribers` does.
    pub fn set(&self, rt: &mut Runtime<T>, new_value: T) -> (pending: Vec<EffectId>)
        requires
            self.number() < old(rt).signal_count(),
        ensures
            final(rt).value_of(self.number() as int) == new_value,
            final(rt).subscribers_of(self.number() as int) == old(rt).subscribers_of(
                self.number() as int,
            ),
            final(rt).same_signals_but(*old(rt), self.number() as int),
            pending@ == effect_ids(old(rt).subscribers_of(self.number() as int)),
            pending@.no_duplicates(),
            node_ids(old(rt).subscribers_of(self.number() as int)).no_duplicates(),
            final(rt).dirty_queue() == after_notify(
                old(rt).dirty_queue(),
                old(rt).subscribers_of(self.number() as int),
            ),
            final(rt).stack() == old(rt).stack(),
            final(rt).next_node_id() == old(rt).next_node_id(),
            final(rt).next_effect_id() == old(rt).next_effect_id(),
    {
        let cell = &mut rt.signals[self.index];
        cell.value = new_value;
        self.notify_subscribers(rt)
    }

    /// Lets `updater` change the signal's value in place and tells the
    /// subscribers, as `notify_subscribers` does. The value afterwards is
    /// what `updater` makes of the value before.
    pub fn update<F>(&self, rt: &mut Runtime<T>, updater: F) -> (pending: Vec<EffectId>) where
        F: FnOnce(&mut T),

        requires
            self.number() < old(rt).signal_count(),
            forall|slot: &mut T|
                *slot == old(rt).value_of(self.number() as int) ==> call_requires(
                    updater,
                    (slot,),
                ),
        ensures
            exists|slot: &mut T|
                {
                    &&& *slot == old(rt).value_of(self.number() as int)
                    &&& *final(slot) == final(rt).value_of(self.number() as int)
                    &&& call_ensures(updater, (slot,), ())
                },
            final(rt).subscribers_of(self.number() as int) == old(rt).subscribers_of(
                self.number() as int,
            ),
            final(rt).same_signals_but(*old(rt), self.number() as int),
            pending@ == effect_ids(old(rt).subscribers_of(self.number() as int)),
            pending@.no_duplicates(),
            node_ids(old(rt).subscribers_of(self.number() as int)).no_duplicates(),
            final(rt).dirty_queue() == after_notify(
                old(rt).dirty_queue(),
                old(rt).subscribers_of(self.number() as int),
            ),
            final(rt).stack() == old(rt).stack(),
            final(rt).next_node_id() == old(rt).next_node_id(),
            final(rt).next_effect_id() == old(rt).next_effect_id(),
    {
        let cell = &mut rt.signals[self.index];
        updater(&mut cell.value);
        self.notify_subscribers(rt)
    }
}

/// A value that is derived from other signals: the read half of a signal
/// that an effect keeps up to date.
pub type Memo<T> = ReadSignal<T>;

/// A new effect, with its first run begun: the caller runs the effect's
/// body now, so that the signals it reads know it, and then calls
/// `end_effect`. Whenever a write hands the effect back, it runs again,
/// between `begin_effect` and `end_effect`.
pub fn create_effect<V>(rt: &mut Runtime<V>) -> (id: EffectId)
    ensures
        id.value() == old(rt).next_effect_id(),
        final(rt).next_effect_id() == next_id(old(rt).next_effect_id()),
        final(rt).stack() == old(rt).stack().push(Subscriber::Effect(id)),
        final(rt).same_signals(*old(rt)),
        final(rt).dirty_queue() == old(rt).dirty_queue(),
        final(rt).next_node_id() == old(rt).next_node_id(),
{
    let id = EffectId::new(rt);
    rt.begin_effect(id);
    id
}

/// `begun` is `before` with the first run of a new effect begun: the
/// effect has the next number and is the running subscriber, and nothing
/// else differs.
pub open spec fn first_run<V>(before: Runtime<V>, begun: Runtime<V>) -> bool {
    &&& begun.stack().len() == before.stack().len() + 1
    &&& begun.stack().drop_last() == before.stack()
    &&& begun.stack().last() matches Subscriber::Effect(effect) && effect.value()
        == before.next_effect_id()
    &&& begun.same_signals(before)
    &&& begun.dirty_queue() == before.dirty_queue()
    &&& begun.next_node_id() == before.next_node_id()
    &&& begun.next_effect_id() == next_id(before.next_effect_id())
}

/// `after` is `derived` with one signal more, which has the number
/// `number`, holds `value` and has no subscriber, and with the run of
/// the innermost subscriber ended.
pub open spec fn memo_kept<V>(derived: Runtime<V>, value: V, number: nat, after: Runtime<V>) -> bool {
    &&& number == derived.signal_count()
    &&& after.signal_count() == derived.signal_count() + 1
    &&& after.value_of(number as int) == value
    &&& after.subscribers_of(number as int) == Seq::<Subscriber>::empty()
    &&& forall|i: int|
        0 <= i < derived.signal_count() ==> #[trigger] after.value_of(i) == derived.value_of(i)
    &&& forall|i: int|
        0 <= i < derived.signal_count() ==> #[trigger] after.subscribers_of(i)
            == derived.subscribers_of(i)
    &&& after.stack() == if derived.stack().len() > 0 {
        derived.stack().drop_last()
    } else {
        derived.stack()
    }
    &&& after.dirty_queue() == derived.dirty_queue()
    &&& after.next_node_id() == derived.next_node_id()
    &&& after.next_effect_id() == derived.next_effect_id()
}

/// A new memo and the effect that keeps it up to date. The effect runs a
/// first time, now: `derive` is called once, with the effect as the
/// running subscriber, so that the signals it reads know the effect, and
/// the memo holds what it returned. Whenever a write hands the effect
/// back, the caller derives the value again between `begin_effect` and
/// `end_effect` and writes it through the write half. Users of the memo
/// get the read half only.
pub fn create_memo<V, F>(rt: &mut Runtime<V>, derive: F) -> (memo: (
    Memo<V>,
    WriteSignal<V>,
    EffectId,
)) where F: FnOnce(&mut Runtime<V>) -> V
    requires
        forall|begun: &mut Runtime<V>|
            first_run(*old(rt), *begun) ==> call_requires(derive, (begun,)),
    ensures
        memo.2.value() == old(rt).next_effect_id(),
        memo.1.number() == memo.0.number(),
        exists|begun: &mut Runtime<V>, value: V|
            {
                &&& first_run(*old(rt), *begun)
                &&& #[trigger] call_ensures(derive, (begun,), value)
                &&& memo_kept(*final(begun), value, memo.0.number(), *final(rt))
            },
{
    let effect = create_effect(rt);
    proof {
        assert(rt.stack().drop_last() =~= old(rt).stack());
        assert(first_run(*old(rt), *rt));
    }
    let value = derive(rt);
    let (read_memo, write_memo) = create_signal(rt, value);
    rt.end_effect();
    (read_memo, write_memo, effect)
}

/// `after` is `before` once `value` was written to signal number `k`:
/// the signal holds `value`, its subscribed nodes wait in the queue of
/// dirty nodes, `pending` are its subscribed effects, and nothing else
/// differs.
pub open spec fn written<V>(
    before: Runtime<V>,
    after: Runtime<V>,
    k: int,
    value: V,
    pending: Seq<EffectId>,
) -> bool {
    &&& after.value_of(k) == value
    &&& after.subscribers_of(k) == before.subscribers_of(k)
    &&& after.same_signals_but(before, k)
    &&& pending == effect_ids(before.subscribers_of(k))
    &&& after.dirty_queue() == after_notify(before.dirty_queue(), before.subscribers_of(k))
    &&& after.stack() == before.stack()
    &&& after.next_node_id() == before.next_node_id()
    &&& after.next_effect_id() == before.next_effect_id()
}

/// A further run of a memo's effect: `derive` is called once and what it
/// returns is written through the memo's write half. Returns the effects
/// that the write hands back for the caller to run. Where the signal is
/// not one of the runtime as `derive` left it, nothing is written and
/// `None` is returned.
pub fn derive_again<V, F>(rt: &mut Runtime<V>, write: WriteSignal<V>, derive: &F) -> (pending:
    Option<Vec<EffectId>>) where F: Fn(&mut Runtime<V>) -> V
    requires
        forall|r: &mut Runtime<V>| *r == *old(rt) ==> call_requires(derive, (r,)),
    ensures
        exists|r: &mut Runtime<V>, value: V|
            {
                &&& *r == *old(rt)
                &&& #[trigger] call_ensures(derive, (r,), value)
                &&& match pending {
                    Some(p) => {
                        &&& write.number() < final(r).signal_count()
                        &&& written(*final(r), *final(rt), write.number() as int, value, p@)
                    },
                    None => {
                        &&& write.number() >= final(r).signal_count()
                        &&& *final(rt) == *final(r)
                    },
                }
            },
{
    let value = derive(rt);
    if write.belongs_to(rt) {
        Some(write.set(rt, value))
    } else {
        None
    }
}

/// One run of an effect's body: the runtime that it was handed, and the
/// runtime as it left it.
pub struct Running<'r, V> {
    pub rt: &'r mut Runtime<V>,
    pub left: Runtime<V>,
}

impl<'r, V> Running<'r, V> {
    /// The run left the stack of running subscribers as it found it.
    pub open spec fn keeps_stack(self) -> bool {
        self.left.stack() == self.rt.stack()
    }
}

/// `stack` without its innermost subscriber, if it has one.
pub open spec fn popped(stack: Seq<Subscriber>) -> Seq<Subscriber> {
    if stack.len() > 0 {
        stack.drop_last()
    } else {
        stack
    }
}

/// `after` holds what `before` holds but for the stack of running
/// subscribers.
pub open spec fn same_but_stack<V>(after: Runtime<V>, before: Runtime<V>) -> bool {
    &&& after.same_signals(before)
    &&& after.dirty_queue() == before.dirty_queue()
    &&& after.next_node_id() == before.next_node_id()
    &&& after.next_effect_id() == before.next_effect_id()
}

/// `begun` is `before` with a run of effect `id` begun.
pub open spec fn effect_begun<V>(before: Runtime<V>, begun: Runtime<V>, id: EffectId) -> bool {
    &&& begun.stack() == before.stack().push(Subscriber::Effect(id))
    &&& same_but_stack(begun, before)
}

/// `after` is `left` with the run of the innermost subscriber ended.
pub open spec fn effect_ended<V>(left: Runtime<V>, after: Runtime<V>) -> bool {
    &&& after.stack() == popped(left.stack())
    &&& same_but_stack(after, left)
}

/// Every run left the stack of running subscribers as it found it.
pub open spec fn runs_keep_stack<V>(runs: Seq<Running<V>>) -> bool {
    forall|i: int| 0 <= i < runs.len() ==> (#[trigger] runs[i]).keeps_stack()
}

/// There is a sequence of no runs.
pub proof fn lemma_no_runs<'r, V>()
    ensures
        exists|none: Seq<Running<'r, V>>| #[trigger] none.len() == 0,
{
    assert(Seq::<Running<'r, V>>::empty().len() == 0);
}

/// Runs that keep the stack with one more keep it without it, and so does
/// the one more.
pub proof fn lemma_runs_keep_more<V>(runs: Seq<Running<V>>, run: Running<V>)
    ensures
        runs_keep_stack(runs.push(run)) ==> runs_keep_stack(runs) && run.keeps_stack(),
{
    let more = runs.push(run);
    if runs_keep_stack(more) {
        assert forall|i: int| 0 <= i < runs.len() implies (#[trigger] runs[i]).keeps_stack() by {
            assert(more[i] == runs[i]);
        }
        assert(more[runs.len() as int] == run);
    }
}

/// Runs the effects that a write handed back, one after the other in
/// their order: for each, a run of the effect is begun, `body` is called
/// once with the effect as the running subscriber, and the run is ended.
/// Each run begins with the runtime as the run before it left it. Where
/// every call leaves the stack of running subscribers as it found it,
/// the stack is afterwards what it was.
pub fn run_pending<'r, V, F>(rt: &mut Runtime<V>, pending: &Vec<EffectId>, body: &F) where
    F: Fn(&mut Runtime<V>, EffectId),

    requires
        forall|r: &mut Runtime<V>, id: EffectId| call_requires(body, (r, id)),
    ensures
        exists|runs: Seq<Running<'r, V>>, between: Seq<Runtime<V>>|
            {
                &&& #[trigger] runs.len() == pending@.len()
                &&& #[trigger] between.len() == pending@.len() + 1
                &&& between[0] == *old(rt)
                &&& between[pending@.len() as int] == *final(rt)
                &&& forall|i: int|
                    0 <= i < pending@.len() ==> {
                        &&& effect_begun(between[i], *(#[trigger] runs[i]).rt, pending@[i])
                        &&& call_ensures(body, (runs[i].rt, pending@[i]), ())
                        &&& *final(runs[i].rt) == runs[i].left
                        &&& effect_ended(runs[i].left, between[i + 1])
                    }
                &&& runs_keep_stack(runs) ==> final(rt).stack() == old(rt).stack()
            },
{
    let n = pending.len();
    let ghost stack0 = rt.stack();
    let ghost mut between: Seq<Runtime<V>> = seq![*rt];
    proof {
        lemma_no_runs::<V>();
    }
    let mut i: usize = 0;
    while i < n
        invariant
            i <= n,
            n == pending@.len(),
            stack0 == old(rt).stack(),
            between.len() == i + 1,
            between[0] == *old(rt),
            between[i as int] == *rt,
            forall|r: &mut Runtime<V>, id: EffectId| call_requires(body, (r, id)),
            exists|runs: Seq<Running<'r, V>>|
                {
                    &&& #[trigger] runs.len() == i
                    &&& forall|k: int|
                        0 <= k < i ==> {
                            &&& effect_begun(between[k], *(#[trigger] runs[k]).rt, pending@[k])
                            &&& call_ensures(body, (runs[k].rt, pending@[k]), ())
                            &&& *final(runs[k].rt) == runs[k].left
                            &&& effect_ended(runs[k].left, between[k + 1])
                        }
                    &&& runs_keep_stack(runs) ==> rt.stack() == stack0
                },
        decreases n - i,
    {
        let id = pending[i];
        let ghost was = between;
        let ghost then = rt.stack();
        rt.begin_effect(id);
        let ghost begun = *rt;
        body(rt, id);
        let ghost left = *rt;
        rt.end_effect();
        proof {
            between = between.push(*rt);
            lemma_scope_restores(then, Subscriber::Effect(id));
            let runs = choose|runs: Seq<Running<'r, V>>|
                {
                    &&& #[trigger] runs.len() == i
                    &&& forall|k: int|
                        0 <= k < i ==> {
                            &&& effect_begun(was[k], *(#[trigger] runs[k]).rt, pending@[k])
                            &&& call_ensures(body, (runs[k].rt, pending@[k]), ())
                            &&& *final(runs[k].rt) == runs[k].left
                            &&& effect_ended(runs[k].left, was[k + 1])
                        }
                    &&& runs_keep_stack(runs) ==> then == stack0
                };
            let r = choose|r: &mut Runtime<V>|
                {
                    &&& *r == begun
                    &&& *final(r) == left
                    &&& #[trigger] call_ensures(body, (r, id), ())
                };
            let run = Running { rt: r, left };
            let more = runs.push(run);
            assert(more.len() == i + 1);
            assert forall|k: int| 0 <= k < i + 1 implies {
                &&& effect_begun(between[k], *(#[trigger] more[k]).rt, pending@[k])
                &&& call_ensures(body, (more[k].rt, pending@[k]), ())
                &&& *final(more[k].rt) == more[k].left
                &&& effect_ended(more[k].left, between[k + 1])
            } by {
                if k < i {
                    assert(more[k] == runs[k]);
                    assert(between[k] == was[k]);
                    assert(between[k + 1] == was[k + 1]);
                } else {
                    assert(more[k] == run);
                    assert(between[k] == was[i as int]);
                }
            }
            lemma_runs_keep_more(runs, run);
        }
        i += 1;
    }
}

/// A node's turn as the running subscriber, from `new` to `exit`.
pub struct ScopedNodeContext(Option<NodeId>);

impl ScopedNodeContext {
    /// The node whose turn this is.
    pub closed spec fn node(self) -> Option<NodeId> {
        self.0
    }

    /// Makes node `id` the running subscriber.
    pub fn new<V>(rt: &mut Runtime<V>, id: NodeId) -> (scope: ScopedNodeContext)
        ensures
            scope.node() == Some(id),
            final(rt).stack() == old(rt).stack().push(Subscriber::Node(id)),
            final(rt).same_signals(*old(rt)),
            final(rt).dirty_queue() == old(rt).dirty_queue(),
            final(rt).next_node_id() == old(rt).next_node_id(),
            final(rt).next_effect_id() == old(rt).next_effect_id(),
    {
        rt.enter(Subscriber::Node(id));
        ScopedNodeContext(Some(id))
    }

    /// Ends the node's turn: the subscriber that ran before it runs again.
    pub fn exit<V>(self, rt: &mut Runtime<V>)
        ensures
            final(rt).stack() == if self.node().is_some() && old(rt).stack().len() > 0 {
                old(rt).stack().drop_last()
            } else {
                old(rt).stack()
            },
            final(rt).same_signals(*old(rt)),
            final(rt).dirty_queue() == old(rt).dirty_queue(),
            final(rt).next_node_id() == old(rt).next_node_id(),
            final(rt).next_effect_id() == old(rt).next_effect_id(),
    {
        if self.0.is_some() {
            rt.leave();
        }
    }
}

/// A scope that is left restores the stack of running subscribers.
pub proof fn lemma_scope_restores(stack: Seq<Subscriber>, who: Subscriber)
    ensures
        stack.push(who).drop_last() == stack,
        stack.push(who).last() == who,
{
    assert(stack.push(who).drop_last() =~= stack);
}

/// Every subscriber is a node or an effect: a write reaches as many nodes
/// and effects together as the signal has subscribers.
pub proof fn lemma_fan_out_partition(subs: Seq<Subscriber>)
    ensures
        node_ids(subs).len() + effect_ids(subs).len() == subs.len(),
    decreases subs.len(),
{
    if subs.len() > 0 {
        lemma_fan_out_partition(subs.drop_last());
    }
}

/// A node or an effect is notified if and only if it is a subscriber.
pub proof fn lemma_fan_out_members(subs: Seq<Subscriber>)
    ensures
        forall|id: NodeId|
            #[trigger] node_ids(subs).contains(id) <==> subs.contains(Subscriber::Node(id)),
        forall|id: EffectId|
            #[trigger] effect_ids(subs).contains(id) <==> subs.contains(Subscriber::Effect(id)),
    decreases subs.len(),
{
    if subs.len() > 0 {
        let rest = subs.drop_last();
        let last = subs.last();
        lemma_fan_out_members(rest);
        assert(subs == rest.push(last));
        assert forall|id: NodeId| #[trigger]
            node_ids(subs).contains(id) <==> subs.contains(Subscriber::Node(id)) by {
            lemma_push_contains(rest, last, Subscriber::Node(id));
            assert(node_ids(rest).contains(id) <==> rest.contains(Subscriber::Node(id)));
            match last {
                Subscriber::Node(n) => {
                    assert(node_ids(subs) == node_ids(rest).push(n));
                    lemma_push_contains(node_ids(rest), n, id);
                },
                Subscriber::Effect(_) => {
                    assert(node_ids(subs) == node_ids(rest));
                },
            }
        }
        assert forall|id: EffectId| #[trigger]
            effect_ids(subs).contains(id) <==> subs.contains(Subscriber::Effect(id)) by {
            lemma_push_contains(rest, last, Subscriber::Effect(id));
            assert(effect_ids(rest).contains(id) <==> rest.contains(Subscriber::Effect(id)));
            match last {
                Subscriber::Effect(e) => {
                    assert(effect_ids(subs) == effect_ids(rest).push(e));
                    lemma_push_contains(effect_ids(rest), e, id);
                },
                Subscriber::Node(_) => {
                    assert(effect_ids(subs) == effect_ids(rest));
                },
            }
        }
    } else {
        assert forall|id: NodeId| #[trigger]
            node_ids(subs).contains(id) <==> subs.contains(Subscriber::Node(id)) by {}
        assert forall|id: EffectId| #[trigger]
            effect_ids(subs).contains(id) <==> subs.contains(Subscriber::Effect(id)) by {}
    }
}

proof fn lemma_push_contains<A>(s: Seq<A>, last: A, x: A)
    ensures
        s.push(last).contains(x) <==> (s.contains(x) || x == last),
{
    let t = s.push(last);
    if s.contains(x) {
        let i = choose|i: int| 0 <= i < s.len() && s[i] == x;
        assert(t[i] == x);
    }
    if x == last {
        assert(t[s.len() as int] == x);
    }
    if t.contains(x) {
        let i = choose|i: int| 0 <= i < t.len() && t[i] == x;
        if i < s.len() {
            assert(s[i] == x);
        }
    }
}

/// Where no subscriber is recorded twice, no node and no effect is
/// notified twice.
pub proof fn lemma_fan_out_distinct(subs: Seq<Subscriber>)
    requires
        subs.no_duplicates(),
    ensures
        node_ids(subs).no_duplicates(),
        effect_ids(subs).no_duplicates(),
    decreases subs.len(),
{
    if subs.len() > 0 {
        let rest = subs.drop_last();
        assert(rest.no_duplicates());
        lemma_fan_out_distinct(rest);
        lemma_fan_out_members(rest);
        assert(!rest.contains(subs.last())) by {
            if rest.contains(subs.last()) {
                let i = choose|i: int| 0 <= i < rest.len() && rest[i] == subs.last();
                assert(subs[i] == subs[subs.len() - 1]);
            }
        }
        match subs.last() {
            Subscriber::Node(id) => {
                assert(!node_ids(rest).contains(id));
                lemma_push_distinct(node_ids(rest), id);
            },
            Subscriber::Effect(id) => {
                assert(!effect_ids(rest).contains(id));
                lemma_push_distinct(effect_ids(rest), id);
            },
        }
    }
}

proof fn lemma_push_distinct<A>(s: Seq<A>, last: A)
    requires
        s.no_duplicates(),
        !s.contains(last),
    ensures
        s.push(last).no_duplicates(),
{
    let t = s.push(last);
    assert forall|i: int, j: int| 0 <= i < t.len() && 0 <= j < t.len() && i != j implies t[i]
        != t[j] by {
        if i < s.len() && j < s.len() {
        } else if i < s.len() {
            assert(s.contains(s[i]));
        } else {
            assert(s.contains(s[j]));
        }
    }
}

/// Subscribing twice is subscribing once: a subscriber that reads a
/// signal again does not appear among its subscribers a second time.
pub proof fn lemma_subscribe_idempotent(subs: Seq<Subscriber>, who: Subscriber)
    ensures
        subscribed(subscribed(subs, who), who) == subscribed(subs, who),
        subs.no_duplicates() ==> subscribed(subs, who).no_duplicates(),
{
    lemma_push_contains(subs, who, who);
    if subs.no_duplicates() && !subs.contains(who) {
        lemma_push_distinct(subs, who);
    }
}

} // verus!
