//! The broker: sole owner of the live peer registry.
//!
//! The broker is a state machine. It consumes one event at a time and answers
//! with the ordered list of actions the I/O layer must perform: spawn a writer
//! task, append a line to a writer's outbound queue, or close a queue. Because
//! every mutation of the registry happens inside this single consumer, no lock
//! is needed anywhere else.

use vstd::prelude::*;

use crate::protocol::delivery_line;
use crate::protocol::line_spec;
use crate::types::Action;
use crate::types::ActionModel;
use crate::types::Event;
use crate::types::models_of;
use crate::types::views_of;

verus! {

/// One registry entry: a peer name bound to the identifier of the writer
/// queue that delivers to that peer's socket.
pub struct Peer {
    pub name: String,
    pub writer: u64,
}

/// The broker's registry and its supply of fresh writer identifiers.
pub struct Broker {
    peers: Vec<Peer>,
    next_writer: u64,
}

/// The map that a sequence of registry entries denotes; a later entry for the
/// same name would shadow an earlier one, but well-formedness rules that out.
pub open spec fn map_of(entries: Seq<Peer>) -> Map<Seq<char>, u64>
    decreases entries.len(),
{
    if entries.len() == 0 {
        Map::empty()
    } else {
        map_of(entries.drop_last()).insert(entries.last().name@, entries.last().writer)
    }
}

proof fn lemma_map_of_dom(entries: Seq<Peer>, n: Seq<char>)
    ensures
        map_of(entries).dom().contains(n) <==> exists|i: int|
            0 <= i < entries.len() && entries[i].name@ == n,
    decreases entries.len(),
{
    if entries.len() > 0 {
        lemma_map_of_dom(entries.drop_last(), n);
        if entries.last().name@ == n {
            assert(entries[entries.len() - 1].name@ == n);
        } else if map_of(entries).dom().contains(n) {
            let i = choose|i: int| 0 <= i < entries.drop_last().len() && entries.drop_last()[
                i
            ].name@ == n;
            assert(entries[i].name@ == n);
        } else if exists|i: int| 0 <= i < entries.len() && entries[i].name@ == n {
            let i = choose|i: int| 0 <= i < entries.len() && entries[i].name@ == n;
            assert(entries.drop_last()[i].name@ == n);
        }
    }
}

proof fn lemma_map_of_index(entries: Seq<Peer>, i: int)
    requires
        0 <= i < entries.len(),
        forall|j: int| i < j < entries.len() ==> entries[j].name@ != entries[i].name@,
    ensures
        map_of(entries).dom().contains(entries[i].name@),
        map_of(entries)[entries[i].name@] == entries[i].writer,
    decreases entries.len(),
{
    if i == entries.len() - 1 {
    } else {
        assert(forall|j: int|
            i < j < entries.drop_last().len() ==> entries.drop_last()[j].name@ != entries.drop_last(
            )[i].name@);
        lemma_map_of_index(entries.drop_last(), i);
        assert(entries.last().name@ != entries[i].name@);
    }
}

proof fn lemma_map_of_remove(entries: Seq<Peer>, i: int)
    requires
        0 <= i < entries.len(),
        forall|a: int, b: int|
            0 <= a < b < entries.len() ==> entries[a].name@ != entries[b].name@,
    ensures
        map_of(entries.remove(i)) == map_of(entries).remove(entries[i].name@),
    decreases entries.len(),
{
    let n = entries[i].name@;
    if i == entries.len() - 1 {
        assert(entries.remove(i) =~= entries.drop_last());
        assert(forall|j: int| 0 <= j < entries.drop_last().len() ==> entries[j].name@ != n);
        lemma_map_of_dom(entries.drop_last(), n);
        assert(map_of(entries.drop_last()) =~= map_of(entries.drop_last()).insert(
            n,
            entries[i].writer,
        ).remove(n));
    } else {
        let dl = entries.drop_last();
        assert(forall|a: int, b: int| 0 <= a < b < dl.len() ==> dl[a].name@ != dl[b].name@);
        lemma_map_of_remove(dl, i);
        assert(entries.remove(i).drop_last() =~= dl.remove(i));
        assert(entries.remove(i).last() == entries.last());
        assert(entries.last().name@ != n);
        assert(map_of(dl).remove(n).insert(entries.last().name@, entries.last().writer)
            =~= map_of(dl).insert(entries.last().name@, entries.last().writer).remove(n));
    }
}

/// How one event moves the registry forward: a new name is bound to the fresh
/// writer identifier, a duplicate registration and a message leave the
/// registry as it stands, and a disconnect removes the name's entry.
pub open spec fn step_registry(r: Map<Seq<char>, u64>, e: Event, fresh: u64) -> Map<Seq<char>, u64> {
    match e {
        Event::NewPeer { name, conn } => if r.dom().contains(name@) {
            r
        } else {
            r.insert(name@, fresh)
        },
        Event::Message { .. } => r,
        Event::Disconnect { name } => r.remove(name@),
    }
}

/// The deliveries a message from `from` with body `msg` produces under
/// registry `r`: one per occurrence of a registered name in `to`, in list
/// order, each carrying the line `from {from}: {msg}\n` addressed to the
/// writer registered under that name. Unregistered names produce nothing.
pub open spec fn route_spec(
    r: Map<Seq<char>, u64>,
    from: Seq<char>,
    to: Seq<Seq<char>>,
    msg: Seq<char>,
) -> Seq<ActionModel>
    decreases to.len(),
{
    if to.len() == 0 {
        Seq::empty()
    } else {
        route_spec(r, from, to.drop_last(), msg) + (if r.dom().contains(to.last()) {
            seq![(ActionModel::Deliver { writer: r[to.last()], line: line_spec(from, msg) })]
        } else {
            Seq::empty()
        })
    }
}

/// The actions one event demands: spawning a writer for a newly registered
/// peer, the deliveries of a message, or the closing of a departed peer's
/// queue. Mirrors `step_registry` on the registry itself.
pub open spec fn step_actions(r: Map<Seq<char>, u64>, e: Event, fresh: u64) -> Seq<ActionModel> {
    match e {
        Event::NewPeer { name, conn } => if r.dom().contains(name@) {
            Seq::empty()
        } else {
            seq![(ActionModel::SpawnWriter { name: name@, writer: fresh, conn })]
        },
        Event::Message { from, to, msg } => route_spec(r, from@, views_of(to@), msg@),
        Event::Disconnect { name } => seq![(ActionModel::Retire { writer: r[name@] })],
    }
}

impl Broker {
    /// The registry as a map from peer name to writer identifier.
    pub closed spec fn registry(self) -> Map<Seq<char>, u64> {
        map_of(self.peers@)
    }

    /// The identifier the next spawned writer will get.
    pub closed spec fn next_id(self) -> u64 {
        self.next_writer
    }

    /// Well-formed: no name is registered twice, and every registered writer
    /// identifier was handed out before `next_id`.
    pub closed spec fn wf(self) -> bool {
        &&& forall|i: int, j: int|
            0 <= i < j < self.peers@.len() ==> self.peers@[i].name@ != self.peers@[j].name@
        &&& forall|i: int| 0 <= i < self.peers@.len() ==> self.peers@[i].writer < self.next_writer
    }

    /// A broker with an empty registry.
    pub fn new() -> (b: Broker)
        ensures
            b.wf(),
            b.registry() == Map::<Seq<char>, u64>::empty(),
            b.next_id() == 0,
    {
        Broker { peers: Vec::new(), next_writer: 0 }
    }

    /// Whether a fresh writer identifier is still available. Identifiers are
    /// never reused, so a broker that has handed out every identifier cannot
    /// register another peer.
    pub fn has_fresh_id(&self) -> (r: bool)
        ensures
            r == (self.next_id() < u64::MAX),
    {
        self.next_writer < u64::MAX
    }

    /// Whether `name` is currently registered.
    pub fn contains(&self, name: &String) -> (r: bool)
        requires
            self.wf(),
        ensures
            r == self.registry().dom().contains(name@),
    {
        self.find_index(name).is_some()
    }

    /// The position of `name` in the registry entries, if it is registered.
    fn find_index(&self, name: &String) -> (r: Option<usize>)
        requires
            self.wf(),
        ensures
            match r {
                Some(i) => i < self.peers@.len() && self.peers@[i as int].name@ == name@
                    && self.registry().dom().contains(name@) && self.registry()[name@]
                    == self.peers@[i as int].writer,
                None => !self.registry().dom().contains(name@),
            },
    {
        let n = self.peers.len();
        let mut i: usize = 0;
        while i < n
            invariant
                0 <= i <= n,
                n == self.peers@.len(),
                self.wf(),
                forall|j: int| 0 <= j < i ==> self.peers@[j].name@ != name@,
            decreases n - i,
        {
            if self.peers[i].name == *name {
                proof {
                    lemma_map_of_dom(self.peers@, name@);
                    lemma_map_of_index(self.peers@, i as int);
                }
                return Some(i);
            }
            i = i + 1;
        }
        proof {
            lemma_map_of_dom(self.peers@, name@);
        }
        None
    }

    /// Consume one event and return, in order, the actions the I/O layer must
    /// perform for it. A `Disconnect` may only report a writer the broker
    /// itself spawned and still has registered: anything else is a broken
    /// lifecycle invariant, not an input to recover from.
    pub fn handle_event(&mut self, event: Event) -> (acts: Vec<Action>)
        requires
            old(self).wf(),
            event matches Event::Disconnect { name } ==> old(self).registry().dom().contains(
                name@,
            ),
            event matches Event::NewPeer { .. } ==> old(self).next_id() < u64::MAX,
        ensures
            final(self).wf(),
            final(self).registry() == step_registry(
                old(self).registry(),
                event,
                old(self).next_id(),
            ),
            models_of(acts@) == step_actions(old(self).registry(), event, old(self).next_id()),
            old(self).next_id() <= final(self).next_id(),
    {
        match event {
            Event::NewPeer { name, conn } => self.register(name, conn),
            Event::Message { from, to, msg } => self.route(from, to, msg),
            Event::Disconnect { name } => self.unregister(name),
        }
    }

    /// Register `name` unless it already is, in which case nothing changes:
    /// the existing peer keeps its writer and its queue, and the duplicate
    /// registrant is ignored without any notice.
    fn register(&mut self, name: String, conn: u64) -> (acts: Vec<Action>)
        requires
            old(self).wf(),
            old(self).next_id() < u64::MAX,
        ensures
            final(self).wf(),
            final(self).registry() == step_registry(
                old(self).registry(),
                Event::NewPeer { name, conn },
                old(self).next_id(),
            ),
            models_of(acts@) == step_actions(
                old(self).registry(),
                Event::NewPeer { name, conn },
                old(self).next_id(),
            ),
            old(self).next_id() <= final(self).next_id(),
    {
        match self.find_index(&name) {
            Some(_) => {
                let acts: Vec<Action> = Vec::new();
                proof {
                    assert(models_of(acts@) =~= Seq::<ActionModel>::empty());
                }
                acts
            },
            None => {
                let writer = self.next_writer;
                self.next_writer = self.next_writer + 1;
                let ghost before = self.peers@;
                self.peers.push(Peer { name: name.clone(), writer });
                let mut acts: Vec<Action> = Vec::new();
                acts.push(Action::SpawnWriter { name: name.clone(), writer, conn });
                proof {
                    assert(self.peers@.drop_last() =~= before);
                    lemma_map_of_dom(before, name@);
                    assert(forall|j: int| 0 <= j < before.len() ==> before[j].name@ != name@);
                    assert(forall|j: int| 0 <= j < before.len() ==> self.peers@[j] == before[j]);
                    assert(models_of(acts@) =~= seq![
                        (ActionModel::SpawnWriter { name: name@, writer, conn }),
                    ]);
                }
                acts
            },
        }
    }

    /// Route one message: for each entry of `to` in order, deliver the line
    /// `from {from}: {msg}\n` to the writer registered under that name, and
    /// skip names that are not registered. The registry does not change, and
    /// nothing at all is reported back for unknown names or full queues.
    fn route(&mut self, from: String, to: Vec<String>, msg: String) -> (acts: Vec<Action>)
        requires
            old(self).wf(),
        ensures
            *final(self) == *old(self),
            models_of(acts@) == route_spec(
                old(self).registry(),
                from@,
                views_of(to@),
                msg@,
            ),
    {
        let mut acts: Vec<Action> = Vec::new();
        let n = to.len();
        let mut k: usize = 0;
        proof {
            assert(views_of(to@).take(0) =~= Seq::<Seq<char>>::empty());
            assert(models_of(acts@) =~= Seq::<ActionModel>::empty());
        }
        while k < n
            invariant
                0 <= k <= n,
                n == to@.len(),
                *self == *old(self),
                self.wf(),
                models_of(acts@) == route_spec(
                    self.registry(),
                    from@,
                    views_of(to@).take(k as int),
                    msg@,
                ),
            decreases n - k,
        {
            let ghost taken = views_of(to@).take(k as int);
            match self.find_index(&to[k]) {
                Some(i) => {
                    let line = delivery_line(from.as_str(), msg.as_str());
                    let writer = self.peers[i].writer;
                    acts.push(Action::Deliver { writer, line });
                },
                None => {},
            }
            proof {
                assert(views_of(to@).take(k + 1) =~= taken.push(to@[k as int]@));
                assert(views_of(to@).take(k + 1).drop_last() =~= taken);
                assert(models_of(acts@) =~= route_spec(
                    self.registry(),
                    from@,
                    views_of(to@).take(k + 1),
                    msg@,
                ));
            }
            k = k + 1;
        }
        proof {
            assert(views_of(to@).take(n as int) =~= views_of(to@));
        }
        acts
    }

    /// Remove the registry entry of a peer whose writer task has stopped, and
    /// have its queue closed. Only the broker removes entries, and only here.
    fn unregister(&mut self, name: String) -> (acts: Vec<Action>)
        requires
            old(self).wf(),
            old(self).registry().dom().contains(name@),
        ensures
            final(self).wf(),
            final(self).registry() == old(self).registry().remove(name@),
            final(self).next_id() == old(self).next_id(),
            models_of(acts@) == seq![
                (ActionModel::Retire { writer: old(self).registry()[name@] }),
            ],
    {
        let i = match self.find_index(&name) {
            Some(i) => i,
            None => {
                proof {
                    assert(false);
                }
                0
            },
        };
        let ghost before = self.peers@;
        let removed = self.peers.remove(i);
        let writer = removed.writer;
        proof {
            lemma_map_of_remove(before, i as int);
            assert forall|a: int, b: int|
                0 <= a < b < self.peers@.len() implies self.peers@[a].name@
                != self.peers@[b].name@ by {
                let a0 = if a < i { a } else { a + 1 };
                let b0 = if b < i { b } else { b + 1 };
                assert(self.peers@[a] == before[a0]);
                assert(self.peers@[b] == before[b0]);
            }
            assert(forall|j: int|
                0 <= j < self.peers@.len() ==> self.peers@[j] == before[j] || self.peers@[j]
                    == before[j + 1]);
        }
        let mut acts: Vec<Action> = Vec::new();
        acts.push(Action::Retire { writer });
        proof {
            assert(models_of(acts@) =~= seq![(ActionModel::Retire { writer })]);
        }
        acts
    }
}

/// The registry after a sequence of events has been applied in order, each
/// paired with the fresh writer identifier available at that point.
pub open spec fn apply_events(
    r: Map<Seq<char>, u64>,
    evs: Seq<Event>,
    fresh: Seq<u64>,
) -> Map<Seq<char>, u64>
    decreases evs.len(),
{
    if evs.len() == 0 {
        r
    } else {
        step_registry(
            apply_events(r, evs.drop_last(), fresh.drop_last()),
            evs.last(),
            fresh.last(),
        )
    }
}

/// Whether position `i` of `evs` announces `n` as a new peer, with no
/// disconnect of `n` anywhere after it.
pub open spec fn live_registration_at(evs: Seq<Event>, n: Seq<char>, i: int) -> bool {
    &&& 0 <= i < evs.len()
    &&& (evs[i] matches Event::NewPeer { name, .. } && name@ == n)
    &&& forall|j: int|
        #![trigger evs[j]]
        i < j < evs.len() ==> !(evs[j] matches Event::Disconnect { name: m } && m@ == n)
}

/// Whether some `NewPeer` for `n` stands in `evs` more recently than every
/// `Disconnect` for `n`.
pub open spec fn registered_more_recently(evs: Seq<Event>, n: Seq<char>) -> bool {
    exists|i: int| live_registration_at(evs, n, i)
}

proof fn lemma_recency_unaffected(evs: Seq<Event>, n: Seq<char>)
    requires
        evs.len() > 0,
        !(evs.last() matches Event::NewPeer { name, .. } && name@ == n),
        !(evs.last() matches Event::Disconnect { name } && name@ == n),
    ensures
        registered_more_recently(evs, n) == registered_more_recently(evs.drop_last(), n),
{
    let prefix = evs.drop_last();
    assert(forall|j: int| #![trigger prefix[j]] 0 <= j < prefix.len() ==> prefix[j] == evs[j]);
    if registered_more_recently(prefix, n) {
        let i = choose|i: int| live_registration_at(prefix, n, i);
        assert(evs[i] == prefix[i]);
        assert forall|j: int|
            #![trigger evs[j]]
            i < j < evs.len() implies !(evs[j] matches Event::Disconnect { name: m } && m@
            == n) by {
            if j < evs.len() - 1 {
                assert(evs[j] == prefix[j]);
            } else {
                assert(evs[j] == evs.last());
            }
        }
        assert(live_registration_at(evs, n, i));
    }
    if registered_more_recently(evs, n) {
        let i = choose|i: int| live_registration_at(evs, n, i);
        assert(evs[i] == if i < evs.len() - 1 {
            prefix[i]
        } else {
            evs.last()
        });
        assert(i < evs.len() - 1);
        assert(live_registration_at(prefix, n, i));
    }
}

/// Law: starting from an empty registry, `n` is registered after a sequence
/// of events exactly when some `NewPeer(n)` has been processed more recently
/// than every `Disconnect(n)`; and, the registry being a map, `n` is never
/// registered twice at once.
pub proof fn lemma_registry_membership(evs: Seq<Event>, fresh: Seq<u64>, n: Seq<char>)
    requires
        fresh.len() == evs.len(),
    ensures
        apply_events(Map::empty(), evs, fresh).dom().contains(n) <==> registered_more_recently(
            evs,
            n,
        ),
    decreases evs.len(),
{
    if evs.len() == 0 {
        assert(!apply_events(Map::empty(), evs, fresh).dom().contains(n));
        assert(forall|i: int| !live_registration_at(evs, n, i));
    } else {
        let prefix = evs.drop_last();
        let pf = fresh.drop_last();
        lemma_registry_membership(prefix, pf, n);
        let m = apply_events(Map::empty(), prefix, pf);
        let r = apply_events(Map::empty(), evs, fresh);
        let e = evs.last();
        assert(forall|j: int| #![trigger prefix[j]] 0 <= j < prefix.len() ==> prefix[j] == evs[j]);
        match e {
            Event::NewPeer { name, conn } => {
                if name@ == n {
                    assert(r.dom().contains(n));
                    assert forall|j: int|
                        #![trigger evs[j]]
                        evs.len() - 1 < j < evs.len() implies !(evs[j]
                        matches Event::Disconnect { name: mm } && mm@ == n) by {}
                    assert(live_registration_at(evs, n, evs.len() - 1));
                } else {
                    lemma_recency_unaffected(evs, n);
                    assert(r.dom().contains(n) == m.dom().contains(n));
                }
            },
            Event::Message { .. } => {
                lemma_recency_unaffected(evs, n);
                assert(r == m);
            },
            Event::Disconnect { name } => {
                if name@ == n {
                    assert(!r.dom().contains(n));
                    assert forall|i: int| !live_registration_at(evs, n, i) by {
                        if live_registration_at(evs, n, i) {
                            if i < evs.len() - 1 {
                                assert(!(evs[evs.len() - 1]
                                    matches Event::Disconnect { name: mm } && mm@ == n));
                                assert(evs[evs.len() - 1] == e);
                            } else {
                                assert(evs[i] == e);
                            }
                        }
                    }
                } else {
                    lemma_recency_unaffected(evs, n);
                    assert(r.dom().contains(n) == m.dom().contains(n));
                }
            },
        }
    }
}

/// Law: a message addressed to a single registered recipient produces exactly
/// one delivery, carrying `from {from}: {msg}\n`, addressed to that
/// recipient's writer and to nobody else.
pub proof fn lemma_single_recipient(
    r: Map<Seq<char>, u64>,
    from: Seq<char>,
    b: Seq<char>,
    msg: Seq<char>,
)
    requires
        r.dom().contains(b),
    ensures
        route_spec(r, from, seq![b], msg) == seq![
            (ActionModel::Deliver { writer: r[b], line: line_spec(from, msg) }),
        ],
{
    assert(seq![b].drop_last() =~= Seq::<Seq<char>>::empty());
    assert(seq![b].last() == b);
    assert(route_spec(r, from, seq![b].drop_last(), msg) == Seq::<ActionModel>::empty());
    assert(route_spec(r, from, seq![b], msg) =~= seq![
        (ActionModel::Deliver { writer: r[b], line: line_spec(from, msg) }),
    ]);
}

/// Law: a message addressed to an unregistered name produces no delivery and
/// no signal of any kind back to the sender.
pub proof fn lemma_unregistered_silent(
    r: Map<Seq<char>, u64>,
    from: Seq<char>,
    b: Seq<char>,
    msg: Seq<char>,
)
    requires
        !r.dom().contains(b),
    ensures
        route_spec(r, from, seq![b], msg) == Seq::<ActionModel>::empty(),
{
    assert(seq![b].drop_last() =~= Seq::<Seq<char>>::empty());
    assert(seq![b].last() == b);
    assert(route_spec(r, from, seq![b].drop_last(), msg) == Seq::<ActionModel>::empty());
    assert(route_spec(r, from, seq![b], msg) =~= Seq::<ActionModel>::empty());
}

/// Law: a second `NewPeer` for an already registered name is a no-op: the
/// registry still binds the name to the first registration's writer, so that
/// writer and its queue remain the sole owner of the name's delivery stream,
/// and no second writer is spawned.
pub proof fn lemma_duplicate_new_peer(
    r: Map<Seq<char>, u64>,
    name1: String,
    name2: String,
    c1: u64,
    c2: u64,
    f1: u64,
    f2: u64,
)
    requires
        !r.dom().contains(name1@),
        name2@ == name1@,
    ensures
        ({
            let r1 = step_registry(r, (Event::NewPeer { name: name1, conn: c1 }), f1);
            let r2 = step_registry(r1, (Event::NewPeer { name: name2, conn: c2 }), f2);
            &&& r2 == r1
            &&& r1[name1@] == f1
            &&& step_actions(r1, (Event::NewPeer { name: name2, conn: c2 }), f2)
                == Seq::<ActionModel>::empty()
        }),
{
}

} // verus!
