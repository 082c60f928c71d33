use crate::bins::{Bins, BinsView};
use crate::event::{EventView, MessageEvent, RankPair};
use vstd::arithmetic::div_mod::lemma_fundamental_div_mod_converse;
use vstd::prelude::*;

verus! {

/// A send event and a receive event of one rank pair. The latency of the pair
/// is the receive timestamp less the send timestamp.
#[derive(Clone, Debug, PartialEq, Eq)]
pub struct MatchedRecord {
    pub send: MessageEvent,
    pub recv: MessageEvent,
}

/// The mathematical value of a [`MatchedRecord`].
pub struct RecordView {
    pub send: EventView,
    pub recv: EventView,
}

impl View for MatchedRecord {
    type V = RecordView;

    open spec fn view(&self) -> RecordView {
        RecordView { send: self.send@, recv: self.recv@ }
    }
}

impl DeepView for MatchedRecord {
    type V = RecordView;

    open spec fn deep_view(&self) -> RecordView {
        self@
    }
}

impl MatchedRecord {
    /// The labels of a record in a table of records: local rank, remote rank,
    /// message kind and size, all taken from the send event.
    pub fn labels(&self) -> (labels: Vec<String>)
        ensures
            labels.deep_view() == seq![
                self@.send.local_rank,
                self@.send.remote_rank,
                self@.send.user_type,
                self@.send.size,
            ],
    {
        let mut labels: Vec<String> = Vec::new();
        labels.push(self.send.local_rank.clone());
        labels.push(self.send.remote_rank.clone());
        labels.push(self.send.user_type.clone());
        labels.push(self.send.size.clone());
        assert(labels.deep_view() =~= seq![
            self@.send.local_rank,
            self@.send.remote_rank,
            self@.send.user_type,
            self@.send.size,
        ]);
        labels
    }
}

/// The pair at each position when every send is paired with every receive:
/// all pairs of the first send come first, in the order of the receives.
pub open spec fn pairing(sends: Seq<EventView>, recvs: Seq<EventView>) -> spec_fn(int) -> RecordView {
    |k: int|
        RecordView { send: sends[k / (recvs.len() as int)], recv: recvs[k % (recvs.len() as int)] }
}

/// Every send paired with every receive.
pub open spec fn cross(sends: Seq<EventView>, recvs: Seq<EventView>) -> Seq<RecordView> {
    Seq::new(sends.len() * recvs.len(), pairing(sends, recvs))
}

/// Pairs every event of `send_bin` with every event of `recv_bin` and appends
/// the pairs to `matched`.
pub fn match_messages(
    send_bin: &Vec<MessageEvent>,
    recv_bin: &Vec<MessageEvent>,
    matched: &mut Vec<MatchedRecord>,
)
    ensures
        final(matched).deep_view() == old(matched).deep_view() + cross(
            send_bin.deep_view(),
            recv_bin.deep_view(),
        ),
{
    let ghost start = matched.deep_view();
    let ghost sends = send_bin.deep_view();
    let ghost recvs = recv_bin.deep_view();
    let ghost width = recv_bin@.len() as int;
    let mut i: usize = 0;
    proof {
        assert(0 * width == 0);
        assert(start + Seq::new(0, pairing(sends, recvs)) =~= start);
    }
    while i < send_bin.len()
        invariant
            i <= send_bin@.len(),
            sends == send_bin.deep_view(),
            recvs == recv_bin.deep_view(),
            width == recv_bin@.len(),
            0 <= i * width,
            matched.deep_view() == start + Seq::new((i * width) as nat, pairing(sends, recvs)),
        decreases send_bin@.len() - i,
    {
        let mut j: usize = 0;
        while j < recv_bin.len()
            invariant
                i < send_bin@.len(),
                j <= recv_bin@.len(),
                sends == send_bin.deep_view(),
                recvs == recv_bin.deep_view(),
                width == recv_bin@.len(),
                0 <= i * width,
                matched.deep_view() == start + Seq::new(
                    (i * width + j) as nat,
                    pairing(sends, recvs),
                ),
            decreases recv_bin@.len() - j,
        {
            let ghost before = matched.deep_view();
            let record = MatchedRecord { send: send_bin[i].duplicate(), recv: recv_bin[j].duplicate() };
            matched.push(record);
            proof {
                let at = i * width + j;
                lemma_fundamental_div_mod_converse(at, width, i as int, j as int);
                assert(pairing(sends, recvs)(at) == record@);
                assert(matched.deep_view() =~= before.push(record@));
                assert(before.push(record@) =~= start + Seq::new(
                    (at + 1) as nat,
                    pairing(sends, recvs),
                ));
            }
            j += 1;
        }
        proof {
            assert(i * width + width == (i + 1) * width) by (nonlinear_arith);
        }
        i += 1;
    }
}

/// The matched records of one rank pair: where they lie among all matched
/// records, and how many they are.
#[derive(Clone, Debug, PartialEq, Eq)]
pub struct PairMatches {
    pub local_rank: String,
    pub remote_rank: String,
    /// Position of the first record of the rank pair.
    pub first: usize,
    /// Number of records of the rank pair.
    pub count: usize,
}

/// The mathematical value of a [`PairMatches`].
pub struct PairView {
    pub key: RankPair,
    pub first: int,
    pub count: int,
}

impl View for PairMatches {
    type V = PairView;

    open spec fn view(&self) -> PairView {
        PairView {
            key: (self.local_rank@, self.remote_rank@),
            first: self.first as int,
            count: self.count as int,
        }
    }
}

impl DeepView for PairMatches {
    type V = PairView;

    open spec fn deep_view(&self) -> PairView {
        self@
    }
}

/// The matched records of the first `n` rank pairs of the send bins.
pub open spec fn matches_upto(send: BinsView, recv: BinsView, n: nat) -> Seq<RecordView>
    decreases n,
{
    if n == 0 {
        Seq::empty()
    } else {
        let key = send.keys[n - 1];
        matches_upto(send, recv, (n - 1) as nat) + cross(send.events_of(key), recv.events_of(key))
    }
}

/// All matched records: for each rank pair, in the order of the send bins,
/// every send event paired with every receive event of the same rank pair.
pub open spec fn matches_of(send: BinsView, recv: BinsView) -> Seq<RecordView> {
    matches_upto(send, recv, send.keys.len())
}

/// Where the matched records of each of the first `n` rank pairs of the send
/// bins lie, for those rank pairs that have receive events too.
pub open spec fn pairs_upto(send: BinsView, recv: BinsView, n: nat) -> Seq<PairView>
    decreases n,
{
    if n == 0 {
        Seq::empty()
    } else {
        let key = send.keys[n - 1];
        let earlier = pairs_upto(send, recv, (n - 1) as nat);
        if recv.events.contains_key(key) {
            earlier.push(
                PairView {
                    key,
                    first: matches_upto(send, recv, (n - 1) as nat).len() as int,
                    count: (send.events_of(key).len() * recv.events_of(key).len()) as int,
                },
            )
        } else {
            earlier
        }
    }
}

/// The rank pairs that have both send and receive events, in the order of the
/// send bins, each with the place of its matched records.
pub open spec fn pairs_of(send: BinsView, recv: BinsView) -> Seq<PairView> {
    pairs_upto(send, recv, send.keys.len())
}

/// The mathematical value of a [`Correlation`].
pub struct CorrelationView {
    pub records: Seq<RecordView>,
    pub pairs: Seq<PairView>,
}

/// The outcome of correlating send events with receive events.
pub struct Correlation {
    records: Vec<MatchedRecord>,
    pairs: Vec<PairMatches>,
}

impl View for Correlation {
    type V = CorrelationView;

    closed spec fn view(&self) -> CorrelationView {
        CorrelationView { records: self.records.deep_view(), pairs: self.pairs.deep_view() }
    }
}

impl Correlation {
    #[verifier::type_invariant]
    /// The records of every listed rank pair lie among the records.
    spec fn in_range(self) -> bool {
        forall|p: int|
            0 <= p < self.pairs@.len() ==> (#[trigger] self.pairs@[p]).first + self.pairs@[p].count
                <= self.records@.len()
    }

    /// All matched records.
    pub fn records(&self) -> (records: &Vec<MatchedRecord>)
        ensures
            records.deep_view() == self@.records,
    {
        &self.records
    }

    /// Number of matched records.
    pub fn total(&self) -> (count: usize)
        ensures
            count == self@.records.len(),
    {
        self.records.len()
    }

    /// The rank pairs that have matched records.
    pub fn pairs(&self) -> (pairs: &Vec<PairMatches>)
        ensures
            pairs.deep_view() == self@.pairs,
            forall|p: int|
                0 <= p < self@.pairs.len() ==> 0 <= (#[trigger] self@.pairs[p]).first
                    && 0 <= self@.pairs[p].count && self@.pairs[p].first + self@.pairs[p].count
                    <= self@.records.len(),
    {
        proof {
            use_type_invariant(self);
            assert forall|p: int| 0 <= p < self@.pairs.len() implies 0 <= (
            #[trigger] self@.pairs[p]).first && 0 <= self@.pairs[p].count && self@.pairs[p].first
                + self@.pairs[p].count <= self@.records.len() by {
                assert(self@.pairs[p] == self.pairs@[p]@);
            }
        }
        &self.pairs
    }

    /// The matched records of the rank pair at `index` among the rank pairs.
    pub fn pair_records(&self, index: usize) -> (records: &[MatchedRecord])
        requires
            index < self@.pairs.len(),
        ensures
            records.deep_view() == self@.records.subrange(
                self@.pairs[index as int].first,
                self@.pairs[index as int].first + self@.pairs[index as int].count,
            ),
    {
        proof {
            use_type_invariant(self);
            assert(self.pairs@[index as int].first + self.pairs@[index as int].count
                <= self.records@.len());
        }
        let first = self.pairs[index].first;
        let count = self.pairs[index].count;
        let total = self.records.len();
        assert(first + count <= total);
        let records = vstd::slice::slice_subrange(self.records.as_slice(), first, first + count);
        proof {
            assert(self@.pairs[index as int] == self.pairs@[index as int]@);
            assert(records.deep_view() =~= self@.records.subrange(
                first as int,
                first + count,
            ));
        }
        records
    }
}

/// Correlates the send events with the receive events: for every rank pair
/// that has both, every send event is paired with every receive event.
pub fn correlate(send_bins: &Bins, recv_bins: &Bins) -> (correlation: Correlation)
    ensures
        correlation@.records == matches_of(send_bins@, recv_bins@),
        correlation@.pairs == pairs_of(send_bins@, recv_bins@),
{
    let mut records: Vec<MatchedRecord> = Vec::new();
    let mut pairs: Vec<PairMatches> = Vec::new();
    let ghost send = send_bins@;
    let ghost recv = recv_bins@;
    let count = send_bins.len();
    let mut index: usize = 0;
    proof {
        assert(records.deep_view() =~= matches_upto(send, recv, 0));
        assert(pairs.deep_view() =~= pairs_upto(send, recv, 0));
    }
    while index < count
        invariant
            index <= count,
            count == send.keys.len(),
            send == send_bins@,
            recv == recv_bins@,
            records.deep_view() == matches_upto(send, recv, index as nat),
            pairs.deep_view() == pairs_upto(send, recv, index as nat),
            forall|p: int|
                0 <= p < pairs@.len() ==> (#[trigger] pairs@[p]).first + pairs@[p].count
                    <= records@.len(),
        decreases count - index,
    {
        let local_rank = send_bins.local_rank(index);
        let remote_rank = send_bins.remote_rank(index);
        let ghost key = send.keys[index as int];
        let ghost pairs_before = pairs.deep_view();
        match recv_bins.get(local_rank, remote_rank) {
            Some(recv_events) => {
                let first = records.len();
                let ghost records_before = records.deep_view();
                let send_events = send_bins.events(index);
                match_messages(send_events, recv_events, &mut records);
                assert(records@.len() == records.deep_view().len());
                assert(records_before.len() == first);
                let pair = PairMatches {
                    local_rank: local_rank.clone(),
                    remote_rank: remote_rank.clone(),
                    first,
                    count: records.len() - first,
                };
                pairs.push(pair);
                proof {
                    assert(recv.events_of(key) == recv_events.deep_view());
                    assert(records@.len() == records.deep_view().len());
                    assert(pairs.deep_view() =~= pairs_before.push(pair@));
                }
            },
            None => {
                proof {
                    let sends = send.events_of(key);
                    assert(recv.events_of(key) =~= Seq::<EventView>::empty());
                    assert(sends.len() * 0 == 0) by (nonlinear_arith);
                    assert(cross(sends, recv.events_of(key)) =~= Seq::<RecordView>::empty());
                    assert(records.deep_view() + Seq::<RecordView>::empty()
                        =~= records.deep_view());
                }
            },
        }
        index += 1;
    }
    Correlation { records, pairs }
}

} // verus!
