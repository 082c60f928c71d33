use crate::analysis::{recv_bins_of, send_bins_of};
use crate::binner::{
    directed, events_in, lemma_directed_add, lemma_directed_empty, lemma_directed_push,
    lemma_events_in_add, received, sent,
};
use crate::bins::{
    keyed, lemma_merged_with_events, lemma_with_events_add, lemma_with_events_push,
    lemma_with_no_events, under_key, BinsView,
};
use crate::chunks::{chunk_end, chunk_start, lemma_chunks_cover};
use crate::correlate::{cross, matches_of, matches_upto, pairing, pairs_of, pairs_upto, RecordView};
use crate::event::{is_timestamp, EventView, Operation, RankPair};
use crate::extract::{has_all_fields, line_extraction, ExtractionView};
use crate::pattern::trace_captures;
use vstd::arithmetic::div_mod::{lemma_fundamental_div_mod, lemma_mod_bound};
use vstd::prelude::*;

verus! {

/// A line in which the event pattern matches, with a numeric timestamp and the
/// keyword `send`, gives a send event whose timestamp, local rank, message
/// kind, remote rank and size are capture groups 1, 2, 5, 6 and 7.
pub proof fn law_send_line_gives_its_fields(line: Seq<char>, groups: Seq<Option<Seq<char>>>)
    requires
        trace_captures(line) == Some(groups),
        has_all_fields(groups),
        is_timestamp(groups[1]->0),
        groups[4]->0 == "send"@,
    ensures
        line_extraction(line) == ExtractionView::Matched(
            EventView {
                operation: Operation::Send,
                timestamp: groups[1]->0,
                local_rank: groups[2]->0,
                remote_rank: groups[6]->0,
                user_type: groups[5]->0,
                size: groups[7]->0,
            },
        ),
{
}

/// A line in which the event pattern does not match gives no event.
pub proof fn law_other_line_gives_no_event(line: Seq<char>)
    requires
        trace_captures(line) is None,
    ensures
        line_extraction(line) == ExtractionView::Skipped,
        events_in(seq![line]) == Seq::<EventView>::empty(),
{
    let lines = seq![line];
    assert(lines.last() == line);
    assert(lines.drop_last() =~= Seq::<Seq<char>>::empty());
    assert(events_in(lines.drop_last()) == Seq::<EventView>::empty());
}

/// Adding one event keeps bins well formed and adds one to their events.
proof fn lemma_with_event_total(bins: BinsView, event: EventView)
    requires
        bins.wf(),
    ensures
        bins.with_event(event).wf(),
        bins.with_event(event).total() == bins.total() + 1,
{
    let key = event.key();
    let after = bins.with_event(event);
    if bins.keys.contains(key) {
        let at = choose|i: int| 0 <= i < bins.keys.len() && bins.keys[i] == key;
        assert(after.wf()) by {
            assert forall|other: RankPair, i: int|
                after.events.contains_key(other) && 0 <= i < after.events[other].len() implies (
            #[trigger] after.events[other][i]).key() == other by {
                if other == key && i < bins.events[key].len() {
                    assert(bins.events[key][i].key() == key);
                } else if other != key {
                    assert(bins.events[other][i].key() == other);
                }
            }
        }
        lemma_total_in_changed(bins, after, at, bins.keys.len());
    } else {
        assert(after.wf()) by {
            assert forall|other: RankPair| #[trigger]
                after.events.contains_key(other) <==> after.keys.contains(other) by {
                if after.keys.contains(other) {
                    let i = choose|i: int| 0 <= i < after.keys.len() && after.keys[i] == other;
                    if i < bins.keys.len() {
                        assert(bins.keys[i] == other);
                    }
                }
                if bins.keys.contains(other) {
                    let i = choose|i: int| 0 <= i < bins.keys.len() && bins.keys[i] == other;
                    assert(after.keys[i] == other);
                }
                if other == key {
                    assert(after.keys[bins.keys.len() as int] == key);
                }
            }
            assert forall|other: RankPair, i: int|
                after.events.contains_key(other) && 0 <= i < after.events[other].len() implies (
            #[trigger] after.events[other][i]).key() == other by {
                if other != key {
                    assert(bins.events[other][i].key() == other);
                }
            }
        }
        lemma_total_in_changed(bins, after, bins.keys.len() as int, bins.keys.len());
        assert(after.keys[bins.keys.len() as int] == key);
    }
}

/// The events under the first `n` rank pairs when one bin has gained an event.
proof fn lemma_total_in_changed(before: BinsView, after: BinsView, at: int, n: nat)
    requires
        before.keys.no_duplicates(),
        n <= before.keys.len() <= after.keys.len(),
        0 <= at,
        forall|i: int| 0 <= i < before.keys.len() ==> after.keys[i] == before.keys[i],
        forall|i: int|
            0 <= i < before.keys.len() && i != at ==> after.events_of(#[trigger] before.keys[i])
                == before.events_of(before.keys[i]),
        at < before.keys.len() ==> after.events_of(before.keys[at]).len() == before.events_of(
            before.keys[at],
        ).len() + 1,
    ensures
        after.total_in(n) == before.total_in(n) + if at < n {
            1int
        } else {
            0int
        },
    decreases n,
{
    if n > 0 {
        lemma_total_in_changed(before, after, at, (n - 1) as nat);
        assert(after.keys[n - 1] == before.keys[n - 1]);
        if at != n - 1 {
            assert(after.events_of(before.keys[n - 1]) == before.events_of(before.keys[n - 1]));
        }
    }
}

/// Binning keeps bins well formed, and every event ends in a bin: the bins
/// hold as many events more as were added.
pub proof fn law_binning_keeps_every_event(bins: BinsView, events: Seq<EventView>)
    requires
        bins.wf(),
    ensures
        bins.with_events(events).wf(),
        bins.with_events(events).total() == bins.total() + events.len(),
    decreases events.len(),
{
    if events.len() == 0 {
        assert(events =~= Seq::<EventView>::empty());
        lemma_with_no_events(bins);
    } else {
        let head = events.drop_last();
        assert(events =~= head.push(events.last()));
        law_binning_keeps_every_event(bins, head);
        lemma_with_events_push(bins, head, events.last());
        lemma_with_event_total(bins.with_events(head), events.last());
    }
}

/// After binning, the bin of a rank pair holds what it held before, and then
/// exactly the added events of that rank pair, in the order in which they
/// came: none is dropped, repeated, or put under another rank pair.
pub proof fn law_bin_holds_its_events(bins: BinsView, events: Seq<EventView>, key: RankPair)
    ensures
        bins.with_events(events).events_of(key) == bins.events_of(key) + under_key(events, key),
{
    let after = bins.with_events(events);
    if !after.events.contains_key(key) {
        assert(bins.events_of(key) + under_key(events, key) =~= Seq::<EventView>::empty());
    }
}

/// Every event is either a send or a receive event, so the two directions
/// share out the events.
pub proof fn law_directions_share_events(events: Seq<EventView>)
    ensures
        sent(events).len() + received(events).len() == events.len(),
    decreases events.len(),
{
    if events.len() == 0 {
        assert(events =~= Seq::<EventView>::empty());
        lemma_directed_empty();
    } else {
        let head = events.drop_last();
        assert(events =~= head.push(events.last()));
        law_directions_share_events(head);
        lemma_directed_push(head, events.last());
    }
}

/// Binning correctness. When events are binned by direction and rank pair,
/// each bin holds exactly the events of its direction and rank pair, in their
/// order, and the bins of both directions together hold as many events as
/// there were: every event is in exactly one bin.
pub proof fn law_binning_partitions_events(events: Seq<EventView>, key: RankPair)
    ensures
        ({
            let send = BinsView::empty().with_events(sent(events));
            let recv = BinsView::empty().with_events(received(events));
            &&& send.wf()
            &&& recv.wf()
            &&& send.events_of(key) == under_key(sent(events), key)
            &&& recv.events_of(key) == under_key(received(events), key)
            &&& send.total() + recv.total() == events.len()
        }),
{
    let none = BinsView::empty();
    assert(none.wf());
    assert(none.total() == 0);
    law_binning_keeps_every_event(none, sent(events));
    law_binning_keeps_every_event(none, received(events));
    law_bin_holds_its_events(none, sent(events), key);
    law_bin_holds_its_events(none, received(events), key);
    assert(none.events_of(key) + under_key(sent(events), key) =~= under_key(sent(events), key));
    assert(none.events_of(key) + under_key(received(events), key) =~= under_key(
        received(events),
        key,
    ));
    law_directions_share_events(events);
}

/// The test for a record whose send event belongs to `key`.
pub open spec fn sent_under(key: RankPair) -> spec_fn(RecordView) -> bool {
    |record: RecordView| record.send.key() == key
}

/// The records of one rank pair among `records`, in their order.
pub open spec fn records_of_pair(records: Seq<RecordView>, key: RankPair) -> Seq<RecordView> {
    records.filter(sent_under(key))
}

/// The send and the receive that meet at position `k` of a cross product.
proof fn lemma_pair_index(k: int, sends: int, recvs: int)
    requires
        0 <= k < sends * recvs,
        0 <= sends,
        0 <= recvs,
    ensures
        0 < recvs,
        0 <= k / recvs < sends,
        0 <= k % recvs < recvs,
{
    assert(0 < recvs) by (nonlinear_arith)
        requires
            0 <= k < sends * recvs,
            0 <= recvs,
    ;
    lemma_fundamental_div_mod(k, recvs);
    lemma_mod_bound(k, recvs);
    let q = k / recvs;
    assert(0 <= q < sends) by (nonlinear_arith)
        requires
            k == recvs * q + k % recvs,
            0 <= k % recvs < recvs,
            0 <= k < sends * recvs,
            0 < recvs,
    ;
}

/// Filtering keeps a sequence whose every element passes the test, and
/// nothing of one whose elements all fail it.
proof fn lemma_filter_all_or_none<A>(items: Seq<A>, test: spec_fn(A) -> bool)
    ensures
        (forall|i: int| 0 <= i < items.len() ==> test(#[trigger] items[i])) ==> items.filter(test)
            == items,
        (forall|i: int| 0 <= i < items.len() ==> !test(#[trigger] items[i])) ==> items.filter(
            test,
        ) == Seq::<A>::empty(),
    decreases items.len(),
{
    if items.len() == 0 {
        items.lemma_filter_len(test);
        assert(items.filter(test) =~= items);
        assert(items.filter(test) =~= Seq::<A>::empty());
    } else {
        let head = items.drop_last();
        assert(items =~= head.push(items.last()));
        lemma_filter_all_or_none(head, test);
        head.lemma_filter_push(items.last(), test);
        if forall|i: int| 0 <= i < items.len() ==> test(#[trigger] items[i]) {
            assert forall|i: int| 0 <= i < head.len() implies test(#[trigger] head[i]) by {
                assert(head[i] == items[i]);
            }
        }
        if forall|i: int| 0 <= i < items.len() ==> !test(#[trigger] items[i]) {
            assert forall|i: int| 0 <= i < head.len() implies !test(#[trigger] head[i]) by {
                assert(head[i] == items[i]);
            }
        }
    }
}

/// The records of one rank pair all belong to it.
proof fn lemma_block_of_pair(send: BinsView, recv: BinsView, last: RankPair, key: RankPair)
    requires
        send.wf(),
        send.keys.contains(last),
    ensures
        records_of_pair(cross(send.events_of(last), recv.events_of(last)), key) == if last == key {
            cross(send.events_of(last), recv.events_of(last))
        } else {
            Seq::<RecordView>::empty()
        },
{
    let sends = send.events_of(last);
    let recvs = recv.events_of(last);
    let block = cross(sends, recvs);
    assert(send.events.contains_key(last));
    assert forall|k: int| 0 <= k < block.len() implies (#[trigger] block[k]).send.key() == last by {
        lemma_pair_index(k, sends.len() as int, recvs.len() as int);
        let at = k / (recvs.len() as int);
        assert(block[k].send == sends[at]);
        assert(send.events[last][at].key() == last);
    }
    lemma_filter_all_or_none(block, sent_under(key));
}

/// Whether a rank pair is among the first `n` of a list without repeats.
proof fn lemma_among_first(keys: Seq<RankPair>, key: RankPair, n: nat)
    requires
        keys.no_duplicates(),
        0 < n <= keys.len(),
    ensures
        keys.take(n as int).contains(key) <==> keys.take(n - 1).contains(key) || keys[n - 1]
            == key,
        keys[n - 1] == key ==> !keys.take(n - 1).contains(key),
{
    let before = keys.take(n - 1);
    let upto = keys.take(n as int);
    assert(upto =~= before.push(keys[n - 1]));
    if before.contains(key) {
        let i = choose|i: int| 0 <= i < before.len() && before[i] == key;
        assert(upto[i] == key);
        assert(keys[i] == key);
    }
    if upto.contains(key) {
        let i = choose|i: int| 0 <= i < upto.len() && upto[i] == key;
        if i < n - 1 {
            assert(before[i] == key);
        }
    }
    if keys[n - 1] == key {
        assert(upto[n - 1] == key);
    }
}

/// The records of the first `n` rank pairs that belong to one rank pair.
proof fn lemma_records_of_pair_upto(send: BinsView, recv: BinsView, key: RankPair, n: nat)
    requires
        send.wf(),
        n <= send.keys.len(),
    ensures
        records_of_pair(matches_upto(send, recv, n), key) == if send.keys.take(n as int).contains(
            key,
        ) {
            cross(send.events_of(key), recv.events_of(key))
        } else {
            Seq::<RecordView>::empty()
        },
    decreases n,
{
    if n == 0 {
        lemma_filter_all_or_none(Seq::<RecordView>::empty(), sent_under(key));
        assert(matches_upto(send, recv, 0) =~= Seq::<RecordView>::empty());
    } else {
        let last = send.keys[n - 1];
        let earlier = matches_upto(send, recv, (n - 1) as nat);
        let block = cross(send.events_of(last), recv.events_of(last));
        lemma_records_of_pair_upto(send, recv, key, (n - 1) as nat);
        Seq::filter_distributes_over_add(earlier, block, sent_under(key));
        assert(send.keys.contains(last));
        lemma_block_of_pair(send, recv, last, key);
        lemma_among_first(send.keys, key, n);
        let kept = records_of_pair(earlier, key);
        assert(records_of_pair(matches_upto(send, recv, n), key) == kept + records_of_pair(
            block,
            key,
        ));
        if last == key {
            assert(kept + block =~= block);
        } else {
            assert(kept + Seq::<RecordView>::empty() =~= kept);
        }
    }
}

/// Correlator cardinality. The matched records of a rank pair are every send
/// event of the pair with every receive event of the pair: `m` times `n`
/// records for `m` send and `n` receive events, and none where the rank pair
/// has no send or no receive event.
pub proof fn law_pair_cardinality(send: BinsView, recv: BinsView, key: RankPair)
    requires
        send.wf(),
        recv.wf(),
    ensures
        records_of_pair(matches_of(send, recv), key) == cross(
            send.events_of(key),
            recv.events_of(key),
        ),
        records_of_pair(matches_of(send, recv), key).len() == send.events_of(key).len()
            * recv.events_of(key).len(),
        send.events_of(key).len() == 0 || recv.events_of(key).len() == 0 ==> records_of_pair(
            matches_of(send, recv),
            key,
        ).len() == 0,
{
    lemma_records_of_pair_upto(send, recv, key, send.keys.len());
    assert(send.keys.take(send.keys.len() as int) =~= send.keys);
    let sends = send.events_of(key);
    let recvs = recv.events_of(key);
    if !send.keys.contains(key) {
        assert(sends.len() * recvs.len() == 0) by (nonlinear_arith)
            requires
                sends.len() == 0,
        ;
        assert(cross(sends, recvs) =~= Seq::<RecordView>::empty());
    }
    assert(sends.len() == 0 || recvs.len() == 0 ==> sends.len() * recvs.len() == 0)
        by (nonlinear_arith);
}

/// Every matched record pairs a send event with a receive event of the same
/// rank pair.
pub proof fn law_records_pair_one_rank_pair(send: BinsView, recv: BinsView, i: int)
    requires
        send.wf(),
        recv.wf(),
        0 <= i < matches_of(send, recv).len(),
    ensures
        matches_of(send, recv)[i].send.key() == matches_of(send, recv)[i].recv.key(),
{
    lemma_records_keyed_upto(send, recv, send.keys.len(), i);
}

/// The same, of the records of the first `n` rank pairs.
proof fn lemma_records_keyed_upto(send: BinsView, recv: BinsView, n: nat, i: int)
    requires
        send.wf(),
        recv.wf(),
        n <= send.keys.len(),
        0 <= i < matches_upto(send, recv, n).len(),
    ensures
        matches_upto(send, recv, n)[i].send.key() == matches_upto(send, recv, n)[i].recv.key(),
    decreases n,
{
    if n > 0 {
        let last = send.keys[n - 1];
        let earlier = matches_upto(send, recv, (n - 1) as nat);
        if i < earlier.len() {
            lemma_records_keyed_upto(send, recv, (n - 1) as nat, i);
        } else {
            let sends = send.events_of(last);
            let recvs = recv.events_of(last);
            let k = i - earlier.len();
            lemma_pair_index(k, sends.len() as int, recvs.len() as int);
            assert(send.keys.contains(last));
            assert(send.events.contains_key(last));
            assert(recv.events.contains_key(last));
            assert(cross(sends, recvs)[k] == pairing(sends, recvs)(k));
            assert(send.events[last][k / (recvs.len() as int)].key() == last);
            assert(recv.events[last][k % (recvs.len() as int)].key() == last);
        }
    }
}

/// The records that a rank pair is listed with are its own: they lie one
/// after the other among all records, and are every send event of the pair
/// with every receive event of the pair.
pub proof fn law_listed_pairs_hold_their_records(send: BinsView, recv: BinsView, p: int)
    requires
        0 <= p < pairs_of(send, recv).len(),
    ensures
        ({
            let pair = pairs_of(send, recv)[p];
            &&& send.keys.contains(pair.key)
            &&& recv.events.contains_key(pair.key)
            &&& pair.count == send.events_of(pair.key).len() * recv.events_of(pair.key).len()
            &&& 0 <= pair.first
            &&& pair.first + pair.count <= matches_of(send, recv).len()
            &&& matches_of(send, recv).subrange(pair.first, pair.first + pair.count) == cross(
                send.events_of(pair.key),
                recv.events_of(pair.key),
            )
        }),
{
    lemma_listed_pairs_upto(send, recv, send.keys.len(), send.keys.len(), p);
}

/// The records of the first rank pairs begin those of more rank pairs.
proof fn lemma_matches_grow(send: BinsView, recv: BinsView, n: nat, m: nat)
    requires
        n <= m,
    ensures
        matches_upto(send, recv, n).len() <= matches_upto(send, recv, m).len(),
        matches_upto(send, recv, m).take(matches_upto(send, recv, n).len() as int) == matches_upto(
            send,
            recv,
            n,
        ),
    decreases m,
{
    if n < m {
        lemma_matches_grow(send, recv, n, (m - 1) as nat);
        assert(matches_upto(send, recv, m).take(matches_upto(send, recv, n).len() as int)
            =~= matches_upto(send, recv, (m - 1) as nat).take(
            matches_upto(send, recv, n).len() as int,
        ));
    } else {
        assert(matches_upto(send, recv, m).take(matches_upto(send, recv, n).len() as int)
            =~= matches_upto(send, recv, n));
    }
}

/// The same, of the rank pairs listed among the first `n`.
proof fn lemma_listed_pairs_upto(send: BinsView, recv: BinsView, n: nat, all: nat, p: int)
    requires
        n <= all,
        all == send.keys.len(),
        0 <= p < pairs_upto(send, recv, n).len(),
    ensures
        ({
            let pair = pairs_upto(send, recv, n)[p];
            &&& send.keys.contains(pair.key)
            &&& recv.events.contains_key(pair.key)
            &&& pair.count == send.events_of(pair.key).len() * recv.events_of(pair.key).len()
            &&& 0 <= pair.first
            &&& pair.first + pair.count <= matches_upto(send, recv, all).len()
            &&& matches_upto(send, recv, all).subrange(pair.first, pair.first + pair.count)
                == cross(send.events_of(pair.key), recv.events_of(pair.key))
        }),
    decreases n,
{
    if n > 0 {
        let key = send.keys[n - 1];
        let earlier = pairs_upto(send, recv, (n - 1) as nat);
        if p < earlier.len() {
            lemma_listed_pairs_upto(send, recv, (n - 1) as nat, all, p);
        } else {
            let pair = pairs_upto(send, recv, n)[p];
            let before = matches_upto(send, recv, (n - 1) as nat);
            let upto = matches_upto(send, recv, n);
            let block = cross(send.events_of(key), recv.events_of(key));
            assert(pair.key == key);
            assert(upto == before + block);
            lemma_matches_grow(send, recv, n, all);
            assert(matches_upto(send, recv, all).subrange(pair.first, pair.first + pair.count)
                =~= upto.subrange(pair.first, pair.first + pair.count));
            assert(upto.subrange(pair.first, pair.first + pair.count) =~= block);
        }
    }
}

/// Every event that is read from a line has a numeric timestamp.
pub proof fn law_events_have_numeric_timestamps(lines: Seq<Seq<char>>, i: int)
    requires
        0 <= i < events_in(lines).len(),
    ensures
        is_timestamp(events_in(lines)[i].timestamp),
    decreases lines.len(),
{
    if lines.len() > 0 {
        let earlier = events_in(lines.drop_last());
        if i < earlier.len() {
            law_events_have_numeric_timestamps(lines.drop_last(), i);
        }
    }
}

/// What holds of every send event and of every receive event in the bins
/// holds of the events of every matched record.
proof fn lemma_records_inherit(
    send: BinsView,
    recv: BinsView,
    n: nat,
    of_send: spec_fn(EventView) -> bool,
    of_recv: spec_fn(EventView) -> bool,
    i: int,
)
    requires
        forall|key: RankPair, j: int|
            0 <= j < send.events_of(key).len() ==> of_send(#[trigger] send.events_of(key)[j]),
        forall|key: RankPair, j: int|
            0 <= j < recv.events_of(key).len() ==> of_recv(#[trigger] recv.events_of(key)[j]),
        0 <= i < matches_upto(send, recv, n).len(),
    ensures
        of_send(matches_upto(send, recv, n)[i].send),
        of_recv(matches_upto(send, recv, n)[i].recv),
    decreases n,
{
    if n > 0 {
        let last = send.keys[n - 1];
        let earlier = matches_upto(send, recv, (n - 1) as nat);
        if i < earlier.len() {
            lemma_records_inherit(send, recv, (n - 1) as nat, of_send, of_recv, i);
        } else {
            let sends = send.events_of(last);
            let recvs = recv.events_of(last);
            let k = i - earlier.len();
            lemma_pair_index(k, sends.len() as int, recvs.len() as int);
            assert(cross(sends, recvs)[k] == pairing(sends, recvs)(k));
            assert(of_send(send.events_of(last)[k / (recvs.len() as int)]));
            assert(of_recv(recv.events_of(last)[k % (recvs.len() as int)]));
        }
    }
}

/// The test for an event of one direction with a numeric timestamp.
pub open spec fn timed(operation: Operation) -> spec_fn(EventView) -> bool {
    |event: EventView| event.operation == operation && is_timestamp(event.timestamp)
}

/// The events in the bins of a direction have that direction and a numeric
/// timestamp.
proof fn lemma_binned_are_timed(lines: Seq<Seq<char>>, operation: Operation, key: RankPair, j: int)
    requires
        0 <= j < under_key(events_in(lines).filter(directed(operation)), key).len(),
    ensures
        timed(operation)(under_key(events_in(lines).filter(directed(operation)), key)[j]),
{
    let all = events_in(lines);
    let one_way = all.filter(directed(operation));
    let binned = under_key(one_way, key);
    let event = binned[j];
    assert(binned.contains(event));
    one_way.lemma_filter_contains_rev(keyed(key), event);
    let at = choose|at: int| 0 <= at < one_way.len() && one_way[at] == event;
    all.lemma_filter_pred(directed(operation), at);
    all.lemma_filter_contains_rev(directed(operation), event);
    let found = choose|found: int| 0 <= found < all.len() && all[found] == event;
    law_events_have_numeric_timestamps(lines, found);
}

/// Every matched record of a trace pairs a send event with a receive event of
/// the same rank pair, and both have numeric timestamps: the latency of the
/// record, the receive timestamp less the send timestamp, is defined.
pub proof fn law_records_pair_send_with_receive(lines: Seq<Seq<char>>, i: int)
    requires
        0 <= i < matches_of(send_bins_of(lines), recv_bins_of(lines)).len(),
    ensures
        ({
            let record = matches_of(send_bins_of(lines), recv_bins_of(lines))[i];
            &&& record.send.operation == Operation::Send
            &&& record.recv.operation == Operation::Receive
            &&& record.send.key() == record.recv.key()
            &&& is_timestamp(record.send.timestamp)
            &&& is_timestamp(record.recv.timestamp)
        }),
{
    let send = send_bins_of(lines);
    let recv = recv_bins_of(lines);
    let none = BinsView::empty();
    assert(none.wf());
    law_binning_keeps_every_event(none, sent(events_in(lines)));
    law_binning_keeps_every_event(none, received(events_in(lines)));
    law_records_pair_one_rank_pair(send, recv, i);
    assert forall|key: RankPair, j: int| 0 <= j < send.events_of(key).len() implies timed(
        Operation::Send,
    )(#[trigger] send.events_of(key)[j]) by {
        law_bin_holds_its_events(none, sent(events_in(lines)), key);
        assert(none.events_of(key) + under_key(sent(events_in(lines)), key) =~= under_key(
            sent(events_in(lines)),
            key,
        ));
        lemma_binned_are_timed(lines, Operation::Send, key, j);
    }
    assert forall|key: RankPair, j: int| 0 <= j < recv.events_of(key).len() implies timed(
        Operation::Receive,
    )(#[trigger] recv.events_of(key)[j]) by {
        law_bin_holds_its_events(none, received(events_in(lines)), key);
        assert(none.events_of(key) + under_key(received(events_in(lines)), key) =~= under_key(
            received(events_in(lines)),
            key,
        ));
        lemma_binned_are_timed(lines, Operation::Receive, key, j);
    }
    lemma_records_inherit(
        send,
        recv,
        send.keys.len(),
        timed(Operation::Send),
        timed(Operation::Receive),
        i,
    );
}

/// The lines of chunk `index` when `lines` are split among `workers`.
pub open spec fn chunk_of(lines: Seq<Seq<char>>, workers: int, index: int) -> Seq<Seq<char>> {
    lines.subrange(
        chunk_start(lines.len() as int, workers, index),
        chunk_end(lines.len() as int, workers, index),
    )
}

/// The send bins when the first `n` chunks are read apart and their bins are
/// put together in the order of the chunks.
pub open spec fn send_bins_of_chunks(lines: Seq<Seq<char>>, workers: int, n: nat) -> BinsView
    decreases n,
{
    if n == 0 {
        BinsView::empty()
    } else {
        send_bins_of_chunks(lines, workers, (n - 1) as nat).merged(
            send_bins_of(chunk_of(lines, workers, n - 1)),
        )
    }
}

/// The receive bins when the first `n` chunks are read apart and their bins
/// are put together in the order of the chunks.
pub open spec fn recv_bins_of_chunks(lines: Seq<Seq<char>>, workers: int, n: nat) -> BinsView
    decreases n,
{
    if n == 0 {
        BinsView::empty()
    } else {
        recv_bins_of_chunks(lines, workers, (n - 1) as nat).merged(
            recv_bins_of(chunk_of(lines, workers, n - 1)),
        )
    }
}

/// The bins of the first `n` chunks are those of the lines before chunk `n`.
proof fn lemma_bins_of_chunks(lines: Seq<Seq<char>>, workers: int, n: nat)
    requires
        0 < workers,
        n <= workers,
    ensures
        send_bins_of_chunks(lines, workers, n) == send_bins_of(
            lines.take(
                if n == workers {
                    lines.len() as int
                } else {
                    chunk_start(lines.len() as int, workers, n as int)
                },
            ),
        ),
        recv_bins_of_chunks(lines, workers, n) == recv_bins_of(
            lines.take(
                if n == workers {
                    lines.len() as int
                } else {
                    chunk_start(lines.len() as int, workers, n as int)
                },
            ),
        ),
    decreases n,
{
    let len = lines.len() as int;
    if n == 0 {
        lemma_chunks_cover(len, workers, 0);
        assert(lines.take(0) =~= Seq::<Seq<char>>::empty());
        lemma_directed_empty();
        lemma_with_no_events(BinsView::empty());
    } else {
        lemma_bins_of_chunks(lines, workers, (n - 1) as nat);
        lemma_chunks_cover(len, workers, n - 1);
        let start = chunk_start(len, workers, n - 1);
        let end = chunk_end(len, workers, n - 1);
        let first = lines.take(start);
        let second = chunk_of(lines, workers, n - 1);
        assert(first + second =~= lines.take(end));
        lemma_events_in_add(first, second);
        lemma_directed_add(events_in(first), events_in(second));
        lemma_merged_with_events(send_bins_of(first), sent(events_in(second)));
        lemma_merged_with_events(recv_bins_of(first), received(events_in(second)));
        lemma_with_events_add(BinsView::empty(), sent(events_in(first)), sent(events_in(second)));
        lemma_with_events_add(
            BinsView::empty(),
            received(events_in(first)),
            received(events_in(second)),
        );
    }
}

/// The number of workers does not matter. When the lines are split into one
/// chunk for each worker, the chunks are read apart and their bins are put
/// together in the order of the chunks, the bins are those of reading all
/// lines in one run.
pub proof fn law_chunks_give_the_bins_of_the_trace(lines: Seq<Seq<char>>, workers: int)
    requires
        0 < workers,
    ensures
        send_bins_of_chunks(lines, workers, workers as nat) == send_bins_of(lines),
        recv_bins_of_chunks(lines, workers, workers as nat) == recv_bins_of(lines),
{
    lemma_bins_of_chunks(lines, workers, workers as nat);
    assert(lines.take(lines.len() as int) =~= lines);
}

/// Determinism of counts. Two numbers of workers give the same matched
/// records, hence the same total and, for every rank pair, the same number of
/// records.
pub proof fn law_worker_count_is_irrelevant(lines: Seq<Seq<char>>, workers: int, others: int)
    requires
        0 < workers,
        0 < others,
    ensures
        matches_of(
            send_bins_of_chunks(lines, workers, workers as nat),
            recv_bins_of_chunks(lines, workers, workers as nat),
        ) == matches_of(
            send_bins_of_chunks(lines, others, others as nat),
            recv_bins_of_chunks(lines, others, others as nat),
        ),
        pairs_of(
            send_bins_of_chunks(lines, workers, workers as nat),
            recv_bins_of_chunks(lines, workers, workers as nat),
        ) == pairs_of(
            send_bins_of_chunks(lines, others, others as nat),
            recv_bins_of_chunks(lines, others, others as nat),
        ),
{
    law_chunks_give_the_bins_of_the_trace(lines, workers);
    law_chunks_give_the_bins_of_the_trace(lines, others);
}

/// Whatever the order in which the bins of two chunks are put together, a rank
/// pair has the same number of events, and so the same number of matched
/// records.
pub proof fn law_merge_order_keeps_counts(
    send_one: BinsView,
    send_two: BinsView,
    recv_one: BinsView,
    recv_two: BinsView,
    key: RankPair,
)
    ensures
        send_one.merged(send_two).events_of(key).len() == send_two.merged(send_one).events_of(
            key,
        ).len(),
        cross(
            send_one.merged(send_two).events_of(key),
            recv_one.merged(recv_two).events_of(key),
        ).len() == cross(
            send_two.merged(send_one).events_of(key),
            recv_two.merged(recv_one).events_of(key),
        ).len(),
{
}

} // verus!
