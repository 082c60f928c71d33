use crate::event::{EventView, MessageEvent, RankPair};
use vstd::prelude::*;

verus! {

/// The test for an event of the rank pair `key`.
pub open spec fn keyed(key: RankPair) -> spec_fn(EventView) -> bool {
    |event: EventView| event.key() == key
}

/// The test for a rank pair that is not among `seen`.
pub open spec fn unseen(seen: Seq<RankPair>) -> spec_fn(RankPair) -> bool {
    |key: RankPair| !seen.contains(key)
}

/// The events of `events` that belong to `key`, in their order.
pub open spec fn under_key(events: Seq<EventView>, key: RankPair) -> Seq<EventView> {
    events.filter(keyed(key))
}

/// The rank pairs of `events` that are not in `seen`, each once, in the order
/// of their first event.
pub open spec fn fresh_keys(seen: Seq<RankPair>, events: Seq<EventView>) -> Seq<RankPair>
    decreases events.len(),
{
    if events.len() == 0 {
        Seq::empty()
    } else {
        let earlier = fresh_keys(seen, events.drop_last());
        let key = events.last().key();
        if seen.contains(key) || earlier.contains(key) {
            earlier
        } else {
            earlier.push(key)
        }
    }
}

/// The mathematical value of [`Bins`]: the rank pairs in the order in which
/// they were first seen, and the events of each.
pub struct BinsView {
    pub keys: Seq<RankPair>,
    pub events: Map<RankPair, Seq<EventView>>,
}

impl BinsView {
    /// Bins without events.
    pub open spec fn empty() -> BinsView {
        BinsView { keys: Seq::empty(), events: Map::empty() }
    }

    /// The events binned under `key`; none if the rank pair is unknown.
    pub open spec fn events_of(self, key: RankPair) -> Seq<EventView> {
        if self.events.contains_key(key) {
            self.events[key]
        } else {
            Seq::empty()
        }
    }

    /// The bins after one more event: it is last under its own rank pair, which
    /// is last among the rank pairs if it is new.
    pub open spec fn with_event(self, event: EventView) -> BinsView {
        BinsView {
            keys: if self.keys.contains(event.key()) {
                self.keys
            } else {
                self.keys.push(event.key())
            },
            events: self.events.insert(event.key(), self.events_of(event.key()).push(event)),
        }
    }

    /// The bins after `events`, all of the rank pair `key`, were added in order.
    pub open spec fn with_bin(self, key: RankPair, events: Seq<EventView>) -> BinsView {
        BinsView {
            keys: if self.keys.contains(key) {
                self.keys
            } else {
                self.keys.push(key)
            },
            events: self.events.insert(key, self.events_of(key) + events),
        }
    }

    /// The bins after `events` were added in order: each rank pair has gained
    /// exactly its own events, in their order, and the new rank pairs follow
    /// the old ones in the order of their first event.
    pub open spec fn with_events(self, events: Seq<EventView>) -> BinsView {
        BinsView {
            keys: self.keys + fresh_keys(self.keys, events),
            events: Map::new(
                |key: RankPair| self.events.contains_key(key) || under_key(events, key).len() > 0,
                |key: RankPair| self.events_of(key) + under_key(events, key),
            ),
        }
    }

    /// The bins after those of `other` were appended: under each rank pair the
    /// events of `self` come first, and the rank pairs that only `other` has
    /// follow those of `self` in the order of `other`.
    pub open spec fn merged(self, other: BinsView) -> BinsView {
        BinsView {
            keys: self.keys + other.keys.filter(unseen(self.keys)),
            events: Map::new(
                |key: RankPair| self.events.contains_key(key) || other.events.contains_key(key),
                |key: RankPair| self.events_of(key) + other.events_of(key),
            ),
        }
    }

    /// No rank pair is listed twice, the listed rank pairs are those that have
    /// events, no bin is empty, and every event lies under its own rank pair.
    pub open spec fn wf(self) -> bool {
        &&& self.keys.no_duplicates()
        &&& forall|key: RankPair| #[trigger] self.events.contains_key(key) <==> self.keys.contains(key)
        &&& forall|key: RankPair| #[trigger]
            self.events.contains_key(key) ==> self.events[key].len() > 0
        &&& forall|key: RankPair, i: int|
            self.events.contains_key(key) && 0 <= i < self.events[key].len() ==> (
            #[trigger] self.events[key][i]).key() == key
    }

    /// Number of events under the first `n` rank pairs.
    pub open spec fn total_in(self, n: nat) -> nat
        decreases n,
    {
        if n == 0 {
            0
        } else {
            self.total_in((n - 1) as nat) + self.events_of(self.keys[n - 1]).len()
        }
    }

    /// Number of events in all bins.
    pub open spec fn total(self) -> nat {
        self.total_in(self.keys.len())
    }
}

/// No events, none of any rank pair.
pub proof fn lemma_under_key_empty(key: RankPair)
    ensures
        under_key(Seq::empty(), key) == Seq::<EventView>::empty(),
{
    Seq::<EventView>::empty().lemma_filter_len(keyed(key));
    assert(under_key(Seq::empty(), key) =~= Seq::<EventView>::empty());
}

/// One more event is one more event of its own rank pair, and of no other.
pub proof fn lemma_under_key_push(events: Seq<EventView>, event: EventView, key: RankPair)
    ensures
        under_key(events.push(event), key) == if event.key() == key {
            under_key(events, key).push(event)
        } else {
            under_key(events, key)
        },
{
    events.lemma_filter_push(event, keyed(key));
}

/// Adding no event changes nothing.
pub proof fn lemma_with_no_events(bins: BinsView)
    ensures
        bins.with_events(Seq::empty()) == bins,
{
    let after = bins.with_events(Seq::empty());
    assert(after.keys =~= bins.keys);
    assert forall|key: RankPair| under_key(Seq::<EventView>::empty(), key).len() == 0 by {
        lemma_under_key_empty(key);
    }
    assert(after.events =~= bins.events);
}

/// Adding a sequence of events is adding them one by one.
pub proof fn lemma_with_events_push(bins: BinsView, events: Seq<EventView>, event: EventView)
    ensures
        bins.with_events(events.push(event)) == bins.with_events(events).with_event(event),
{
    let all = events.push(event);
    let before = bins.with_events(events);
    let left = bins.with_events(all);
    let right = before.with_event(event);
    let key = event.key();
    let earlier = fresh_keys(bins.keys, events);
    assert(all.drop_last() =~= events);
    assert(all.last() == event);
    assert(before.keys.contains(key) <==> bins.keys.contains(key) || earlier.contains(key)) by {
        if bins.keys.contains(key) {
            let i = choose|i: int| 0 <= i < bins.keys.len() && bins.keys[i] == key;
            assert(before.keys[i] == key);
        }
        if earlier.contains(key) {
            let i = choose|i: int| 0 <= i < earlier.len() && earlier[i] == key;
            assert(before.keys[bins.keys.len() + i] == key);
        }
    }
    assert(left.keys =~= right.keys);
    assert forall|other: RankPair| #[trigger]
        under_key(all, other) == (if key == other {
            under_key(events, other).push(event)
        } else {
            under_key(events, other)
        }) by {
        lemma_under_key_push(events, event, other);
    }
    assert forall|other: RankPair|
        left.events.contains_key(other) == right.events.contains_key(other) by {
        assert(under_key(all, other).len() >= 0);
    }
    assert forall|other: RankPair| left.events.contains_key(other) implies left.events[other]
        =~= right.events[other] by {
        assert(under_key(all, other).len() >= 0);
        if other == key && !before.events.contains_key(key) {
            assert(under_key(events, key) =~= Seq::<EventView>::empty());
        }
    }
    assert(left.events =~= right.events);
}

/// The events of one rank pair, in the order in which they were added.
struct Bin {
    local_rank: String,
    remote_rank: String,
    events: Vec<MessageEvent>,
}

impl Bin {
    /// The rank pair of the bin.
    spec fn key(self) -> RankPair {
        (self.local_rank@, self.remote_rank@)
    }
}

/// What a list of bins holds, provided that no rank pair has two bins.
spec fn listed(bins: Seq<Bin>) -> BinsView {
    BinsView {
        keys: Seq::new(bins.len(), |i: int| bins[i].key()),
        events: Map::new(
            |key: RankPair| exists|i: int| 0 <= i < bins.len() && #[trigger] bins[i].key() == key,
            |key: RankPair|
                bins[choose|i: int| 0 <= i < bins.len() && #[trigger] bins[i].key()
                    == key].events.deep_view(),
        ),
    }
}

/// No rank pair has two bins, no bin is empty, and every event lies in the bin
/// of its own rank pair.
spec fn well_kept(bins: Seq<Bin>) -> bool {
    &&& forall|i: int, j: int|
        0 <= i < j < bins.len() ==> #[trigger] bins[i].key() != #[trigger] bins[j].key()
    &&& forall|i: int| 0 <= i < bins.len() ==> (#[trigger] bins[i]).events@.len() > 0
    &&& forall|i: int, n: int|
        0 <= i < bins.len() && 0 <= n < bins[i].events@.len() ==> (
        #[trigger] bins[i].events@[n])@.key() == bins[i].key()
}

/// A list of bins holds each of its bins under the rank pair of the bin.
proof fn lemma_listed_at(bins: Seq<Bin>, i: int)
    requires
        well_kept(bins),
        0 <= i < bins.len(),
    ensures
        listed(bins).keys[i] == bins[i].key(),
        listed(bins).events.contains_key(bins[i].key()),
        listed(bins).events[bins[i].key()] == bins[i].events.deep_view(),
        listed(bins).events_of(bins[i].key()) == bins[i].events.deep_view(),
{
    let key = bins[i].key();
    let j = choose|j: int| 0 <= j < bins.len() && #[trigger] bins[j].key() == key;
    assert(j == i);
}

/// What a well kept list of bins holds is well formed.
proof fn lemma_listed_wf(bins: Seq<Bin>)
    requires
        well_kept(bins),
    ensures
        listed(bins).wf(),
{
    let view = listed(bins);
    assert forall|key: RankPair| #[trigger] view.events.contains_key(key) implies view.events[key].len()
        > 0 && view.keys.contains(key) by {
        let i = choose|i: int| 0 <= i < bins.len() && #[trigger] bins[i].key() == key;
        lemma_listed_at(bins, i);
    }
    assert forall|key: RankPair| view.keys.contains(key) implies #[trigger] view.events.contains_key(
        key,
    ) by {
        let i = choose|i: int| 0 <= i < view.keys.len() && view.keys[i] == key;
        lemma_listed_at(bins, i);
    }
    assert forall|key: RankPair, n: int|
        view.events.contains_key(key) && 0 <= n < view.events[key].len() implies (
    #[trigger] view.events[key][n]).key() == key by {
        let i = choose|i: int| 0 <= i < bins.len() && #[trigger] bins[i].key() == key;
        lemma_listed_at(bins, i);
        assert(bins[i].events@[n]@.key() == bins[i].key());
    }
}

/// Events grouped by rank pair. The rank pairs keep the order in which they
/// were first seen, and the events of a rank pair the order in which they were
/// added.
pub struct Bins {
    bins: Vec<Bin>,
}

impl View for Bins {
    type V = BinsView;

    closed spec fn view(&self) -> BinsView {
        listed(self.bins@)
    }
}

impl Bins {
    #[verifier::type_invariant]
    /// The list of bins is well kept at all times.
    spec fn kept(self) -> bool {
        well_kept(self.bins@)
    }

    /// Bins with no event.
    pub fn new() -> (bins: Bins)
        ensures
            bins@ == BinsView::empty(),
    {
        let bins = Bins { bins: Vec::new() };
        assert(bins@.keys =~= BinsView::empty().keys);
        assert(bins@.events =~= BinsView::empty().events);
        bins
    }

    /// Number of rank pairs.
    pub fn len(&self) -> (count: usize)
        ensures
            count == self@.keys.len(),
            self@.wf(),
    {
        proof {
            use_type_invariant(self);
            lemma_listed_wf(self.bins@);
        }
        self.bins.len()
    }

    /// The local rank of the rank pair at `index`.
    pub fn local_rank(&self, index: usize) -> (rank: &String)
        requires
            index < self@.keys.len(),
        ensures
            rank@ == self@.keys[index as int].0,
    {
        &self.bins[index].local_rank
    }

    /// The remote rank of the rank pair at `index`.
    pub fn remote_rank(&self, index: usize) -> (rank: &String)
        requires
            index < self@.keys.len(),
        ensures
            rank@ == self@.keys[index as int].1,
    {
        &self.bins[index].remote_rank
    }

    /// The events of the rank pair at `index`.
    pub fn events(&self, index: usize) -> (events: &Vec<MessageEvent>)
        requires
            index < self@.keys.len(),
        ensures
            events.deep_view() == self@.events_of(self@.keys[index as int]),
            events@.len() > 0,
    {
        proof {
            use_type_invariant(self);
            lemma_listed_at(self.bins@, index as int);
        }
        &self.bins[index].events
    }

    /// The position of a rank pair among the rank pairs, if it has events.
    pub fn find(&self, local_rank: &String, remote_rank: &String) -> (position: Option<usize>)
        ensures
            match position {
                Some(index) => index < self@.keys.len() && self@.keys[index as int] == (
                    local_rank@,
                    remote_rank@,
                ),
                None => !self@.keys.contains((local_rank@, remote_rank@)),
            },
    {
        let position = position_of(&self.bins, local_rank, remote_rank);
        proof {
            if position is None && self@.keys.contains((local_rank@, remote_rank@)) {
                let i = choose|i: int|
                    0 <= i < self@.keys.len() && self@.keys[i] == (local_rank@, remote_rank@);
                assert(self.bins@[i].key() == (local_rank@, remote_rank@));
            }
        }
        position
    }

    /// The events of a rank pair, if it has any.
    pub fn get(&self, local_rank: &String, remote_rank: &String) -> (found: Option<
        &Vec<MessageEvent>,
    >)
        ensures
            match found {
                Some(events) => self@.events.contains_key((local_rank@, remote_rank@))
                    && events.deep_view() == self@.events[(local_rank@, remote_rank@)],
                None => !self@.events.contains_key((local_rank@, remote_rank@)),
            },
    {
        proof {
            use_type_invariant(self);
            lemma_listed_wf(self.bins@);
        }
        match self.find(local_rank, remote_rank) {
            Some(index) => {
                proof {
                    lemma_listed_at(self.bins@, index as int);
                }
                Some(&self.bins[index].events)
            },
            None => None,
        }
    }

    /// Adds an event at the end of the bin of its rank pair.
    pub fn insert(&mut self, event: MessageEvent)
        ensures
            final(self)@ == old(self)@.with_event(event@),
    {
        proof {
            use_type_invariant(&*self);
        }
        let local_rank = event.local_rank.clone();
        let remote_rank = event.remote_rank.clone();
        let ghost added = event@;
        let mut bins: Vec<Bin> = Vec::new();
        core::mem::swap(&mut self.bins, &mut bins);
        let events = vec![event];
        assert(events.deep_view() =~= seq![added]);
        extend_bin(&mut bins, local_rank, remote_rank, events);
        self.bins = bins;
        proof {
            let before = old(self)@;
            assert(before.events_of(added.key()) + seq![added] =~= before.events_of(
                added.key(),
            ).push(added));
        }
    }

    /// Appends the bins of `other`: under each rank pair its events follow those
    /// that are already there.
    pub fn merge(&mut self, other: Bins)
        ensures
            final(self)@ == old(self)@.merged(other@),
    {
        proof {
            use_type_invariant(&*self);
            use_type_invariant(&other);
        }
        let mut mine: Vec<Bin> = Vec::new();
        core::mem::swap(&mut self.bins, &mut mine);
        let mut theirs = other.bins;
        let ghost start = mine@;
        let ghost source = theirs@;
        proof {
            lemma_merged_nothing(listed(start));
            assert(source.take(0) =~= Seq::<Bin>::empty());
            assert(listed(Seq::<Bin>::empty()).keys =~= BinsView::empty().keys);
            assert(listed(Seq::<Bin>::empty()).events =~= BinsView::empty().events);
        }
        let mut index: usize = 0;
        while index < theirs.len()
            invariant
                index <= source.len(),
                theirs@.len() == source.len(),
                forall|j: int| index <= j < source.len() ==> theirs@[j] == source[j],
                well_kept(source),
                well_kept(mine@),
                listed(mine@) == listed(start).merged(listed(source.take(index as int))),
            decreases source.len() - index,
        {
            let local_rank = theirs[index].local_rank.clone();
            let remote_rank = theirs[index].remote_rank.clone();
            let mut events: Vec<MessageEvent> = Vec::new();
            core::mem::swap(&mut theirs[index].events, &mut events);
            proof {
                let done = source.take(index as int);
                let bin = source[index as int];
                assert(source.take(index + 1) =~= done.push(bin));
                assert(well_kept(done.push(bin))) by {
                    assert forall|i: int| 0 <= i < done.push(bin).len() implies done.push(bin)[i]
                        == source[i] by {}
                }
                lemma_listed_push(done, bin);
                lemma_merged_step(listed(start), listed(done), bin.key(), bin.events.deep_view());
                assert(events.deep_view() =~= bin.events.deep_view());
            }
            extend_bin(&mut mine, local_rank, remote_rank, events);
            index += 1;
        }
        proof {
            assert(source.take(index as int) =~= source);
        }
        self.bins = mine;
    }
}

/// The position of the bin of a rank pair in a list of bins.
fn position_of(bins: &Vec<Bin>, local_rank: &String, remote_rank: &String) -> (position: Option<
    usize,
>)
    ensures
        match position {
            Some(index) => index < bins@.len() && bins@[index as int].key() == (
                local_rank@,
                remote_rank@,
            ),
            None => forall|i: int|
                0 <= i < bins@.len() ==> (#[trigger] bins@[i]).key() != (local_rank@, remote_rank@),
        },
{
    let mut index: usize = 0;
    while index < bins.len()
        invariant
            index <= bins@.len(),
            forall|i: int|
                0 <= i < index ==> (#[trigger] bins@[i]).key() != (local_rank@, remote_rank@),
        decreases bins@.len() - index,
    {
        if bins[index].local_rank == *local_rank && bins[index].remote_rank == *remote_rank {
            return Some(index);
        }
        index += 1;
    }
    None
}

/// Appends events of one rank pair to its bin, which is made if there is none.
fn extend_bin(bins: &mut Vec<Bin>, local_rank: String, remote_rank: String, events: Vec<MessageEvent>)
    requires
        well_kept(old(bins)@),
        events@.len() > 0,
        forall|n: int|
            0 <= n < events@.len() ==> (#[trigger] events@[n])@.key() == (
                local_rank@,
                remote_rank@,
            ),
    ensures
        well_kept(final(bins)@),
        listed(final(bins)@) == listed(old(bins)@).with_bin(
            (local_rank@, remote_rank@),
            events.deep_view(),
        ),
{
    let ghost before = bins@;
    let ghost key = (local_rank@, remote_rank@);
    let ghost batch = events.deep_view();
    let ghost wanted = listed(before).with_bin(key, batch);
    let mut events = events;
    match position_of(bins, &local_rank, &remote_rank) {
        Some(index) => {
            bins[index].events.append(&mut events);
            proof {
                let after = bins@;
                assert(after.len() == before.len());
                assert forall|i: int| 0 <= i < after.len() implies #[trigger] after[i].key()
                    == before[i].key() by {}
                assert forall|i: int, n: int|
                    0 <= i < after.len() && 0 <= n < after[i].events@.len() implies (
                #[trigger] after[i].events@[n])@.key() == after[i].key() by {
                    if i == index && n >= before[i].events@.len() {
                    } else {
                        assert(after[i].events@[n] == before[i].events@[n]);
                    }
                }
                assert(well_kept(after));
                assert(listed(before).keys[index as int] == key);
                assert(listed(after).keys =~= wanted.keys);
                assert forall|other: RankPair|
                    listed(after).events.contains_key(other) == wanted.events.contains_key(
                        other,
                    ) by {
                    if listed(after).events.contains_key(other) {
                        let i = choose|i: int|
                            0 <= i < after.len() && #[trigger] after[i].key() == other;
                        assert(before[i].key() == other);
                    }
                    if listed(before).events.contains_key(other) {
                        let i = choose|i: int|
                            0 <= i < before.len() && #[trigger] before[i].key() == other;
                        assert(after[i].key() == other);
                    }
                    if other == key {
                        assert(after[index as int].key() == other);
                    }
                }
                assert forall|other: RankPair|
                    listed(after).events.contains_key(other) implies listed(after).events[other]
                    =~= wanted.events[other] by {
                    let i = choose|i: int|
                        0 <= i < after.len() && #[trigger] after[i].key() == other;
                    lemma_listed_at(after, i);
                    lemma_listed_at(before, i);
                }
                assert(listed(after).events =~= wanted.events);
            }
        },
        None => {
            bins.push(Bin { local_rank, remote_rank, events });
            proof {
                let after = bins@;
                let last = before.len() as int;
                assert forall|i: int| 0 <= i < before.len() implies #[trigger] after[i]
                    == before[i] by {}
                assert(after[last].key() == key);
                assert(well_kept(after));
                assert(!listed(before).keys.contains(key));
                assert(listed(after).keys =~= wanted.keys);
                assert forall|other: RankPair|
                    listed(after).events.contains_key(other) == wanted.events.contains_key(
                        other,
                    ) by {
                    if listed(after).events.contains_key(other) {
                        let i = choose|i: int|
                            0 <= i < after.len() && #[trigger] after[i].key() == other;
                        if i < last {
                            assert(before[i].key() == other);
                        }
                    }
                    if listed(before).events.contains_key(other) {
                        let i = choose|i: int|
                            0 <= i < before.len() && #[trigger] before[i].key() == other;
                        assert(after[i].key() == other);
                    }
                    if other == key {
                        assert(after[last].key() == other);
                    }
                }
                assert forall|other: RankPair|
                    listed(after).events.contains_key(other) implies listed(after).events[other]
                    =~= wanted.events[other] by {
                    let i = choose|i: int|
                        0 <= i < after.len() && #[trigger] after[i].key() == other;
                    lemma_listed_at(after, i);
                    if i < last {
                        lemma_listed_at(before, i);
                    }
                }
                assert(listed(after).events =~= wanted.events);
            }
        },
    }
}

/// What a list of bins holds once one more bin is at its end.
proof fn lemma_listed_push(bins: Seq<Bin>, bin: Bin)
    requires
        well_kept(bins.push(bin)),
    ensures
        well_kept(bins),
        !listed(bins).keys.contains(bin.key()),
        !listed(bins).events.contains_key(bin.key()),
        listed(bins.push(bin)) == (BinsView {
            keys: listed(bins).keys.push(bin.key()),
            events: listed(bins).events.insert(bin.key(), bin.events.deep_view()),
        }),
{
    let all = bins.push(bin);
    let last = bins.len() as int;
    assert forall|i: int| 0 <= i < bins.len() implies #[trigger] all[i] == bins[i] by {}
    assert(all[last] == bin);
    assert(well_kept(bins)) by {
        assert forall|i: int, j: int| 0 <= i < j < bins.len() implies #[trigger] bins[i].key()
            != #[trigger] bins[j].key() by {
            assert(all[i].key() != all[j].key());
        }
        assert forall|i: int| 0 <= i < bins.len() implies (#[trigger] bins[i]).events@.len()
            > 0 by {
            assert(all[i].events@.len() > 0);
        }
        assert forall|i: int, n: int|
            0 <= i < bins.len() && 0 <= n < bins[i].events@.len() implies (
        #[trigger] bins[i].events@[n])@.key() == bins[i].key() by {
            assert(all[i].events@[n]@.key() == all[i].key());
        }
    }
    assert forall|i: int| 0 <= i < bins.len() implies #[trigger] bins[i].key() != bin.key() by {
        assert(all[i].key() != all[last].key());
    }
    let wanted = BinsView {
        keys: listed(bins).keys.push(bin.key()),
        events: listed(bins).events.insert(bin.key(), bin.events.deep_view()),
    };
    assert(listed(all).keys =~= wanted.keys);
    assert forall|other: RankPair|
        listed(all).events.contains_key(other) == wanted.events.contains_key(other) by {
        if listed(all).events.contains_key(other) {
            let i = choose|i: int| 0 <= i < all.len() && #[trigger] all[i].key() == other;
            if i < last {
                assert(bins[i].key() == other);
            }
        }
        if listed(bins).events.contains_key(other) {
            let i = choose|i: int| 0 <= i < bins.len() && #[trigger] bins[i].key() == other;
            assert(all[i].key() == other);
        }
        if other == bin.key() {
            assert(all[last].key() == other);
        }
    }
    assert forall|other: RankPair| listed(all).events.contains_key(other) implies listed(
        all,
    ).events[other] =~= wanted.events[other] by {
        let i = choose|i: int| 0 <= i < all.len() && #[trigger] all[i].key() == other;
        lemma_listed_at(all, i);
        if i < last {
            lemma_listed_at(bins, i);
        }
    }
    assert(listed(all).events =~= wanted.events);
}

/// Appending no bins changes nothing.
pub proof fn lemma_merged_nothing(bins: BinsView)
    ensures
        bins.merged(BinsView::empty()) == bins,
{
    let after = bins.merged(BinsView::empty());
    Seq::<RankPair>::empty().lemma_filter_len(unseen(bins.keys));
    assert(after.keys =~= bins.keys);
    assert(after.events =~= bins.events);
}

/// Appending bins one rank pair at a time.
pub proof fn lemma_merged_step(
    bins: BinsView,
    other: BinsView,
    key: RankPair,
    events: Seq<EventView>,
)
    requires
        !other.keys.contains(key),
        !other.events.contains_key(key),
    ensures
        bins.merged(
            BinsView { keys: other.keys.push(key), events: other.events.insert(key, events) },
        ) == bins.merged(other).with_bin(key, events),
{
    let more = BinsView { keys: other.keys.push(key), events: other.events.insert(key, events) };
    let left = bins.merged(more);
    let middle = bins.merged(other);
    let right = middle.with_bin(key, events);
    other.keys.lemma_filter_push(key, unseen(bins.keys));
    assert(middle.keys.contains(key) <==> bins.keys.contains(key)) by {
        let kept = other.keys.filter(unseen(bins.keys));
        if kept.contains(key) {
            other.keys.lemma_filter_contains_rev(unseen(bins.keys), key);
        }
        if bins.keys.contains(key) {
            let i = choose|i: int| 0 <= i < bins.keys.len() && bins.keys[i] == key;
            assert(middle.keys[i] == key);
        }
        if middle.keys.contains(key) && !bins.keys.contains(key) {
            let i = choose|i: int| 0 <= i < middle.keys.len() && middle.keys[i] == key;
            assert(kept[i - bins.keys.len()] == key);
        }
    }
    assert(left.keys =~= right.keys);
    assert forall|any: RankPair| left.events.contains_key(any) == right.events.contains_key(any) by {}
    assert forall|any: RankPair| left.events.contains_key(any) implies left.events[any]
        =~= right.events[any] by {}
    assert(left.events =~= right.events);
}

/// Adding two runs of events one after the other is adding their concatenation.
pub proof fn lemma_with_events_add(bins: BinsView, first: Seq<EventView>, second: Seq<EventView>)
    ensures
        bins.with_events(first + second) == bins.with_events(first).with_events(second),
    decreases second.len(),
{
    if second.len() == 0 {
        assert(first + second =~= first);
        assert(second =~= Seq::<EventView>::empty());
        lemma_with_no_events(bins.with_events(first));
    } else {
        let head = second.drop_last();
        let event = second.last();
        assert(second =~= head.push(event));
        assert(first + second =~= (first + head).push(event));
        lemma_with_events_add(bins, first, head);
        lemma_with_events_push(bins, first + head, event);
        lemma_with_events_push(bins.with_events(first), head, event);
    }
}

/// An event added to the bins that are appended is an event added to the result.
pub proof fn lemma_merged_with_event(bins: BinsView, other: BinsView, event: EventView)
    ensures
        bins.merged(other.with_event(event)) == bins.merged(other).with_event(event),
{
    let key = event.key();
    let more = other.with_event(event);
    let left = bins.merged(more);
    let middle = bins.merged(other);
    let right = middle.with_event(event);
    let kept = other.keys.filter(unseen(bins.keys));
    other.keys.lemma_filter_push(key, unseen(bins.keys));
    assert(middle.keys.contains(key) <==> bins.keys.contains(key) || other.keys.contains(key)) by {
        if kept.contains(key) {
            other.keys.lemma_filter_contains_rev(unseen(bins.keys), key);
        }
        if bins.keys.contains(key) {
            let i = choose|i: int| 0 <= i < bins.keys.len() && bins.keys[i] == key;
            assert(middle.keys[i] == key);
        }
        if middle.keys.contains(key) && !bins.keys.contains(key) {
            let i = choose|i: int| 0 <= i < middle.keys.len() && middle.keys[i] == key;
            assert(kept[i - bins.keys.len()] == key);
        }
        if other.keys.contains(key) && !bins.keys.contains(key) {
            let i = choose|i: int| 0 <= i < other.keys.len() && other.keys[i] == key;
            other.keys.lemma_filter_contains(unseen(bins.keys), i);
            let j = choose|j: int| 0 <= j < kept.len() && kept[j] == key;
            assert(middle.keys[bins.keys.len() + j] == key);
        }
    }
    assert(left.keys =~= right.keys);
    assert forall|any: RankPair| left.events.contains_key(any) == right.events.contains_key(any) by {}
    assert forall|any: RankPair| left.events.contains_key(any) implies left.events[any]
        =~= right.events[any] by {}
    assert(left.events =~= right.events);
}

/// Binning events apart and appending the result is binning them in place.
pub proof fn lemma_merged_with_events(bins: BinsView, events: Seq<EventView>)
    ensures
        bins.merged(BinsView::empty().with_events(events)) == bins.with_events(events),
    decreases events.len(),
{
    if events.len() == 0 {
        assert(events =~= Seq::<EventView>::empty());
        lemma_with_no_events(BinsView::empty());
        lemma_with_no_events(bins);
        lemma_merged_nothing(bins);
    } else {
        let head = events.drop_last();
        let event = events.last();
        assert(events =~= head.push(event));
        lemma_merged_with_events(bins, head);
        lemma_with_events_push(BinsView::empty(), head, event);
        lemma_with_events_push(bins, head, event);
        lemma_merged_with_event(bins, BinsView::empty().with_events(head), event);
    }
}

} // verus!
