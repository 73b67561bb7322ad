//! The stable k-way track merger.
//!
//! Each input track carries its events with deltas relative to the previous
//! event of the same track. The merger orders all events of all tracks by
//! absolute tick time, keeps the original track order among events at equal
//! times, and re-expresses every delta relative to the previous event of the
//! merged sequence.

use vstd::prelude::*;
use vstd::multiset::Multiset;
use vstd::seq_lib::lemma_multiset_commutative;
use crate::events::Event;

verus! {

/// One event tagged for the merge: its absolute tick time, the index of the
/// track it came from, and its position within that track.
#[derive(Clone, Copy, Debug, PartialEq, Eq, Structural)]
pub struct Tagged {
    pub time: u64,
    pub track: usize,
    pub pos: usize,
    pub payload: crate::events::Payload,
}

/// The sum of all tick deltas of a sequence of events.
pub open spec fn total_ticks(tr: Seq<Event>) -> int
    decreases tr.len(),
{
    if tr.len() == 0 {
        0
    } else {
        total_ticks(tr.drop_last()) + tr.last().delta
    }
}

/// The absolute tick time of event `i` of a track: its deltas accumulated
/// through index `i`.
pub open spec fn abs_time_at(tr: Seq<Event>, i: int) -> int {
    total_ticks(tr.take(i + 1))
}

/// Every absolute time of the track fits in `u64`.
pub open spec fn ticks_fit(tr: Seq<Event>) -> bool {
    total_ticks(tr) <= u64::MAX
}

pub proof fn lemma_total_ticks_nonneg(tr: Seq<Event>)
    ensures
        total_ticks(tr) >= 0,
    decreases tr.len(),
{
    if tr.len() > 0 {
        lemma_total_ticks_nonneg(tr.drop_last());
    }
}

pub proof fn lemma_total_ticks_step(tr: Seq<Event>, i: int)
    requires
        0 <= i < tr.len(),
    ensures
        total_ticks(tr.take(i + 1)) == total_ticks(tr.take(i)) + tr[i].delta,
{
    assert(tr.take(i + 1).drop_last() =~= tr.take(i));
    assert(tr.take(i + 1).last() == tr[i]);
}

pub proof fn lemma_total_ticks_take_le(tr: Seq<Event>, i: int)
    requires
        0 <= i <= tr.len(),
    ensures
        total_ticks(tr.take(i)) <= total_ticks(tr),
    decreases tr.len() - i,
{
    if i == tr.len() {
        assert(tr.take(i) =~= tr);
    } else {
        lemma_total_ticks_step(tr, i);
        lemma_total_ticks_take_le(tr, i + 1);
    }
}

pub proof fn lemma_total_ticks_take_mono(tr: Seq<Event>, i: int, j: int)
    requires
        0 <= i <= j <= tr.len(),
    ensures
        total_ticks(tr.take(i)) <= total_ticks(tr.take(j)),
    decreases j - i,
{
    if i < j {
        lemma_total_ticks_step(tr, i);
        lemma_total_ticks_take_mono(tr, i + 1, j);
    }
}

/// A track turned into tagged form: every event at its absolute time,
/// carrying the track index `t` and its own position.
pub open spec fn tag_track(tr: Seq<Event>, t: int) -> Seq<Tagged> {
    Seq::new(
        tr.len(),
        |i: int|
            Tagged {
                time: abs_time_at(tr, i) as u64,
                track: t as usize,
                pos: i as usize,
                payload: tr[i].payload,
            },
    )
}

/// Absolute times never decrease along the sequence.
pub open spec fn time_sorted(s: Seq<Tagged>) -> bool {
    forall|i: int, j: int| 0 <= i < j < s.len() ==> s[i].time <= s[j].time
}

/// `x` precedes `y` in the stable order of ties: an earlier track first, and
/// within one track an earlier position first.
pub open spec fn tag_lt(x: Tagged, y: Tagged) -> bool {
    x.track < y.track || (x.track == y.track && x.pos < y.pos)
}

/// Events at equal absolute times stand in their stable order.
pub open spec fn tie_ordered(s: Seq<Tagged>) -> bool {
    forall|i: int, j: int|
        0 <= i < j < s.len() && s[i].time == s[j].time ==> tag_lt(s[i], s[j])
}

/// The stable two-way merge, ties won by the left side.
pub open spec fn merge2(a: Seq<Tagged>, b: Seq<Tagged>) -> Seq<Tagged>
    decreases a.len(), b.len(),
{
    if a.len() == 0 {
        b
    } else if b.len() == 0 {
        a
    } else if a[0].time <= b[0].time {
        seq![a[0]] + merge2(a.drop_first(), b)
    } else {
        seq![b[0]] + merge2(a, b.drop_first())
    }
}

/// The stable k-way merge: tracks folded in from the left, so that every
/// earlier track wins its ties against every later one.
pub open spec fn merge_all(ts: Seq<Seq<Tagged>>) -> Seq<Tagged>
    decreases ts.len(),
{
    if ts.len() == 0 {
        Seq::empty()
    } else {
        merge2(merge_all(ts.drop_last()), ts.last())
    }
}

/// Every tagged event of every track, as one multiset.
pub open spec fn all_items(ts: Seq<Seq<Tagged>>) -> Multiset<Tagged>
    decreases ts.len(),
{
    if ts.len() == 0 {
        Multiset::empty()
    } else {
        all_items(ts.drop_last()).add(ts.last().to_multiset())
    }
}

/// The absolute times of a tagged sequence, in order.
pub open spec fn times_of(s: Seq<Tagged>) -> Seq<int> {
    s.map_values(|x: Tagged| x.time as int)
}

/// Every absolute tick position of every track, as one multiset.
pub open spec fn all_times(ts: Seq<Seq<Tagged>>) -> Multiset<int>
    decreases ts.len(),
{
    if ts.len() == 0 {
        Multiset::empty()
    } else {
        all_times(ts.drop_last()).add(times_of(ts.last()).to_multiset())
    }
}

/// All tracks of a sequence, in tagged form.
pub open spec fn tag_all(ts: Seq<Seq<Event>>) -> Seq<Seq<Tagged>> {
    Seq::new(ts.len(), |t: int| tag_track(ts[t], t))
}

/// The merged sequence of a set of tracks, in tagged form.
pub open spec fn merged_model(ts: Seq<Seq<Event>>) -> Seq<Tagged> {
    merge_all(tag_all(ts))
}

/// A tagged sequence turned back into delta form: each delta is the gap to
/// the previous absolute time, the first one the gap from time zero.
pub open spec fn untag(m: Seq<Tagged>) -> Seq<Event> {
    Seq::new(
        m.len(),
        |i: int|
            Event {
                delta: (m[i].time - (if i == 0 {
                    0int
                } else {
                    m[i - 1].time as int
                })) as u64,
                payload: m[i].payload,
            },
    )
}

proof fn lemma_merge2_ensures(a: Seq<Tagged>, b: Seq<Tagged>)
    ensures
        merge2(a, b).len() == a.len() + b.len(),
        merge2(a, b).to_multiset() == a.to_multiset().add(b.to_multiset()),
        times_of(merge2(a, b)).to_multiset() == times_of(a).to_multiset().add(
            times_of(b).to_multiset(),
        ),
        (time_sorted(a) && time_sorted(b)) ==> time_sorted(merge2(a, b)),
        merge2(a, b).len() > 0 ==> (a.len() > 0 && merge2(a, b)[0] == a[0]) || (b.len() > 0
            && merge2(a, b)[0] == b[0]),
    decreases a.len(), b.len(),
{
    broadcast use vstd::seq_lib::group_to_multiset_ensures;
    broadcast use vstd::multiset::group_multiset_axioms;

    let r = merge2(a, b);
    if a.len() == 0 {
        assert(a.to_multiset() =~= Multiset::<Tagged>::empty());
        assert(r.to_multiset() =~= a.to_multiset().add(b.to_multiset()));
        assert(times_of(a) =~= Seq::<int>::empty());
        assert(times_of(a).to_multiset() =~= Multiset::<int>::empty());
        assert(times_of(r).to_multiset() =~= times_of(a).to_multiset().add(
            times_of(b).to_multiset(),
        ));
    } else if b.len() == 0 {
        assert(b.to_multiset() =~= Multiset::<Tagged>::empty());
        assert(r.to_multiset() =~= a.to_multiset().add(b.to_multiset()));
        assert(times_of(b) =~= Seq::<int>::empty());
        assert(times_of(b).to_multiset() =~= Multiset::<int>::empty());
        assert(times_of(r).to_multiset() =~= times_of(a).to_multiset().add(
            times_of(b).to_multiset(),
        ));
    } else if a[0].time <= b[0].time {
        let m = merge2(a.drop_first(), b);
        lemma_merge2_ensures(a.drop_first(), b);
        assert(r == seq![a[0]] + m);
        lemma_multiset_commutative(seq![a[0]], m);
        lemma_multiset_commutative(seq![a[0]], a.drop_first());
        assert(a =~= seq![a[0]] + a.drop_first());
        assert(seq![a[0]].to_multiset() =~= Multiset::<Tagged>::empty().insert(a[0]));
        assert(r.to_multiset() =~= a.to_multiset().add(b.to_multiset()));
        assert(times_of(r) =~= seq![a[0].time as int] + times_of(m));
        assert(times_of(a) =~= seq![a[0].time as int] + times_of(a.drop_first()));
        lemma_multiset_commutative(seq![a[0].time as int], times_of(m));
        lemma_multiset_commutative(seq![a[0].time as int], times_of(a.drop_first()));
        assert(times_of(r).to_multiset() =~= times_of(a).to_multiset().add(
            times_of(b).to_multiset(),
        ));
        if time_sorted(a) && time_sorted(b) {
            assert(time_sorted(a.drop_first())) by {
                assert(forall|i: int, j: int|
                    0 <= i < j < a.drop_first().len() ==> a.drop_first()[i] == a[i + 1]
                        && a.drop_first()[j] == a[j + 1]);
            }
            assert(time_sorted(m));
            if m.len() > 0 {
                assert(m[0] == a.drop_first()[0] || m[0] == b[0]);
                assert(a[0].time <= m[0].time);
            }
            assert forall|i: int, j: int| 0 <= i < j < r.len() implies r[i].time
                <= r[j].time by {
                if i == 0 {
                    assert(r[j] == m[j - 1]);
                    if j > 1 {
                        assert(m[0].time <= m[j - 1].time);
                    }
                } else {
                    assert(r[i] == m[i - 1] && r[j] == m[j - 1]);
                }
            }
        }
    } else {
        let m = merge2(a, b.drop_first());
        lemma_merge2_ensures(a, b.drop_first());
        assert(r == seq![b[0]] + m);
        lemma_multiset_commutative(seq![b[0]], m);
        lemma_multiset_commutative(seq![b[0]], b.drop_first());
        assert(b =~= seq![b[0]] + b.drop_first());
        assert(seq![b[0]].to_multiset() =~= Multiset::<Tagged>::empty().insert(b[0]));
        assert(r.to_multiset() =~= a.to_multiset().add(b.to_multiset()));
        assert(times_of(r) =~= seq![b[0].time as int] + times_of(m));
        assert(times_of(b) =~= seq![b[0].time as int] + times_of(b.drop_first()));
        lemma_multiset_commutative(seq![b[0].time as int], times_of(m));
        lemma_multiset_commutative(seq![b[0].time as int], times_of(b.drop_first()));
        assert(times_of(r).to_multiset() =~= times_of(a).to_multiset().add(
            times_of(b).to_multiset(),
        ));
        if time_sorted(a) && time_sorted(b) {
            assert(time_sorted(b.drop_first())) by {
                assert(forall|i: int, j: int|
                    0 <= i < j < b.drop_first().len() ==> b.drop_first()[i] == b[i + 1]
                        && b.drop_first()[j] == b[j + 1]);
            }
            assert(time_sorted(m));
            if m.len() > 0 {
                assert(m[0] == a[0] || m[0] == b.drop_first()[0]);
                assert(b[0].time <= m[0].time);
            }
            assert forall|i: int, j: int| 0 <= i < j < r.len() implies r[i].time
                <= r[j].time by {
                if i == 0 {
                    assert(r[j] == m[j - 1]);
                    if j > 1 {
                        assert(m[0].time <= m[j - 1].time);
                    }
                } else {
                    assert(r[i] == m[i - 1] && r[j] == m[j - 1]);
                }
            }
        }
    }
}

proof fn lemma_merge2_stable(a: Seq<Tagged>, b: Seq<Tagged>)
    requires
        time_sorted(a),
        time_sorted(b),
        tie_ordered(a),
        tie_ordered(b),
        forall|i: int, j: int|
            0 <= i < a.len() && 0 <= j < b.len() ==> a[i].track < b[j].track,
    ensures
        tie_ordered(merge2(a, b)),
    decreases a.len(), b.len(),
{
    broadcast use vstd::seq_lib::group_to_multiset_ensures;
    broadcast use vstd::multiset::group_multiset_axioms;

    let r = merge2(a, b);
    if a.len() == 0 || b.len() == 0 {
    } else if a[0].time <= b[0].time {
        let rest = a.drop_first();
        let m = merge2(rest, b);
        assert(time_sorted(rest) && tie_ordered(rest)) by {
            assert(forall|i: int| 0 <= i < rest.len() ==> rest[i] == a[i + 1]);
        }
        lemma_merge2_stable(rest, b);
        lemma_merge2_ensures(rest, b);
        assert(r == seq![a[0]] + m);
        assert forall|p: int, q: int|
            0 <= p < q < r.len() && r[p].time == r[q].time implies tag_lt(r[p], r[q]) by {
            if p == 0 {
                let x = m[q - 1];
                assert(m.contains(x));
                assert((rest + b).to_multiset().count(x) > 0) by {
                    lemma_multiset_commutative(rest, b);
                }
                assert((rest + b).contains(x));
                let k = choose|k: int| 0 <= k < (rest + b).len() && (rest + b)[k] == x;
                if k < rest.len() {
                    assert(x == a[k + 1]);
                    assert(tag_lt(a[0], a[k + 1]));
                } else {
                    assert(x == b[k - rest.len()]);
                }
            } else {
                assert(r[p] == m[p - 1] && r[q] == m[q - 1]);
            }
        }
    } else {
        let rest = b.drop_first();
        let m = merge2(a, rest);
        assert(time_sorted(rest) && tie_ordered(rest)) by {
            assert(forall|i: int| 0 <= i < rest.len() ==> rest[i] == b[i + 1]);
        }
        lemma_merge2_stable(a, rest);
        lemma_merge2_ensures(a, rest);
        assert(r == seq![b[0]] + m);
        assert forall|p: int, q: int|
            0 <= p < q < r.len() && r[p].time == r[q].time implies tag_lt(r[p], r[q]) by {
            if p == 0 {
                let x = m[q - 1];
                assert(m.contains(x));
                assert((a + rest).to_multiset().count(x) > 0) by {
                    lemma_multiset_commutative(a, rest);
                }
                assert((a + rest).contains(x));
                let k = choose|k: int| 0 <= k < (a + rest).len() && (a + rest)[k] == x;
                if k < a.len() {
                    assert(x == a[k]);
                    assert(a[0].time <= a[k].time);
                    assert(false);
                } else {
                    assert(x == b[k - a.len() + 1]);
                    assert(tag_lt(b[0], x));
                }
            } else {
                assert(r[p] == m[p - 1] && r[q] == m[q - 1]);
            }
        }
    }
}

/// Every member of `all_items(ts)` lies in one of the tracks.
proof fn lemma_all_items_member(ts: Seq<Seq<Tagged>>, x: Tagged)
    requires
        all_items(ts).count(x) > 0,
    ensures
        exists|t: int| 0 <= t < ts.len() && #[trigger] ts[t].contains(x),
    decreases ts.len(),
{
    broadcast use vstd::seq_lib::group_to_multiset_ensures;
    broadcast use vstd::multiset::group_multiset_axioms;

    if ts.len() > 0 {
        if ts.last().to_multiset().count(x) > 0 {
            assert(ts.last().contains(x));
            assert(ts[ts.len() - 1].contains(x));
        } else {
            lemma_all_items_member(ts.drop_last(), x);
            let t = choose|t: int|
                0 <= t < ts.drop_last().len() && #[trigger] ts.drop_last()[t].contains(x);
            assert(ts[t].contains(x));
        }
    }
}

proof fn lemma_merge_all_ensures(ts: Seq<Seq<Tagged>>)
    requires
        forall|t: int| 0 <= t < ts.len() ==> time_sorted(#[trigger] ts[t]),
    ensures
        time_sorted(merge_all(ts)),
        merge_all(ts).to_multiset() == all_items(ts),
        times_of(merge_all(ts)).to_multiset() == all_times(ts),
    decreases ts.len(),
{
    broadcast use vstd::seq_lib::group_to_multiset_ensures;
    broadcast use vstd::multiset::group_multiset_axioms;

    if ts.len() == 0 {
        assert(Seq::<Tagged>::empty().to_multiset() =~= Multiset::<Tagged>::empty());
        assert(times_of(Seq::<Tagged>::empty()) =~= Seq::<int>::empty());
        assert(Seq::<int>::empty().to_multiset() =~= Multiset::<int>::empty());
    } else {
        assert(forall|t: int|
            0 <= t < ts.drop_last().len() ==> #[trigger] ts.drop_last()[t] == ts[t]);
        lemma_merge_all_ensures(ts.drop_last());
        lemma_merge2_ensures(merge_all(ts.drop_last()), ts.last());
    }
}

/// Every tagged event of a track carries that track's index and its own
/// position.
pub open spec fn tags_consistent(ts: Seq<Seq<Tagged>>) -> bool {
    forall|t: int, i: int|
        0 <= t < ts.len() && 0 <= i < ts[t].len() ==> (#[trigger] ts[t][i]).track == t
            && ts[t][i].pos == i
}

proof fn lemma_merge_all_stable(ts: Seq<Seq<Tagged>>)
    requires
        forall|t: int| 0 <= t < ts.len() ==> time_sorted(#[trigger] ts[t]),
        tags_consistent(ts),
    ensures
        tie_ordered(merge_all(ts)),
    decreases ts.len(),
{
    broadcast use vstd::seq_lib::group_to_multiset_ensures;
    broadcast use vstd::multiset::group_multiset_axioms;

    if ts.len() > 0 {
        let prefix = ts.drop_last();
        let last = ts.last();
        let acc = merge_all(prefix);
        assert(forall|t: int| 0 <= t < prefix.len() ==> #[trigger] prefix[t] == ts[t]);
        lemma_merge_all_stable(prefix);
        lemma_merge_all_ensures(prefix);
        assert(tie_ordered(last)) by {
            assert(forall|i: int, j: int|
                0 <= i < j < last.len() ==> (#[trigger] last[i]).pos == i
                    && (#[trigger] last[j]).pos == j && last[i].track == last[j].track);
        }
        assert forall|i: int, j: int|
            0 <= i < acc.len() && 0 <= j < last.len() implies acc[i].track
            < last[j].track by {
            assert(acc.contains(acc[i]));
            assert(acc.to_multiset().count(acc[i]) > 0);
            lemma_all_items_member(prefix, acc[i]);
            let t = choose|t: int| 0 <= t < prefix.len() && #[trigger] prefix[t].contains(
                acc[i],
            );
            let k = choose|k: int| 0 <= k < prefix[t].len() && prefix[t][k] == acc[i];
            assert(acc[i].track == t);
            assert(last[j].track == ts.len() - 1);
        }
        lemma_merge2_stable(acc, last);
    }
}

/// With every absolute time in range, a tagged track is time-sorted and its
/// times are exactly the accumulated deltas.
pub proof fn lemma_tag_track_times(tr: Seq<Event>, t: int)
    requires
        ticks_fit(tr),
    ensures
        forall|i: int|
            0 <= i < tr.len() ==> (#[trigger] tag_track(tr, t)[i]).time == abs_time_at(
                tr,
                i,
            ),
        time_sorted(tag_track(tr, t)),
{
    assert forall|i: int| 0 <= i < tr.len() implies (#[trigger] tag_track(tr, t)[i]).time
        == abs_time_at(tr, i) by {
        lemma_total_ticks_nonneg(tr.take(i + 1));
        lemma_total_ticks_take_le(tr, i + 1);
    }
    assert forall|i: int, j: int|
        0 <= i < j < tag_track(tr, t).len() implies tag_track(tr, t)[i].time <= tag_track(
        tr,
        t,
    )[j].time by {
        lemma_total_ticks_nonneg(tr.take(i + 1));
        lemma_total_ticks_take_le(tr, i + 1);
        lemma_total_ticks_take_le(tr, j + 1);
        lemma_total_ticks_nonneg(tr.take(j + 1));
        lemma_total_ticks_take_mono(tr, i + 1, j + 1);
    }
}

/// In a time-sorted tagged sequence, accumulating the delta form back up
/// reproduces exactly the absolute times.
pub proof fn lemma_untag_reconstructs(m: Seq<Tagged>, i: int)
    requires
        time_sorted(m),
        0 <= i < m.len(),
    ensures
        abs_time_at(untag(m), i) == m[i].time,
    decreases i,
{
    let u = untag(m);
    if i == 0 {
        assert(u.take(1) =~= seq![u[0]]);
        assert(seq![u[0]].drop_last() =~= Seq::<Event>::empty());
        assert(total_ticks(seq![u[0]]) == total_ticks(Seq::<Event>::empty())
            + seq![u[0]].last().delta);
        assert(u[0].delta == m[0].time);
    } else {
        lemma_untag_reconstructs(m, i - 1);
        lemma_total_ticks_step(u, i);
        assert(m[i - 1].time <= m[i].time);
        assert(u[i].delta == m[i].time - m[i - 1].time);
        assert(abs_time_at(u, i - 1) == total_ticks(u.take(i)));
    }
}

/// Law: the merge loses nothing and invents nothing. The merged sequence
/// carries, as a multiset, exactly the original events, each at the absolute
/// tick time accumulated within its own track; its absolute times never
/// decrease; events at equal times keep their track order and, within one
/// track, their original order; and accumulating the merged delta form
/// reproduces exactly those absolute times.
pub proof fn lemma_merge_reconstructs(ts: Seq<Seq<Event>>)
    requires
        ts.len() <= usize::MAX,
        forall|t: int| 0 <= t < ts.len() ==> ticks_fit(#[trigger] ts[t]),
        forall|t: int| 0 <= t < ts.len() ==> (#[trigger] ts[t]).len() <= usize::MAX,
    ensures
        merged_model(ts).to_multiset() == all_items(tag_all(ts)),
        times_of(merged_model(ts)).to_multiset() == all_times(tag_all(ts)),
        time_sorted(merged_model(ts)),
        tie_ordered(merged_model(ts)),
        forall|i: int|
            0 <= i < merged_model(ts).len() ==> abs_time_at(untag(merged_model(ts)), i)
                == (#[trigger] merged_model(ts)[i]).time,
{
    let tagged = tag_all(ts);
    assert forall|t: int| 0 <= t < tagged.len() implies time_sorted(
        #[trigger] tagged[t],
    ) by {
        lemma_tag_track_times(ts[t], t);
    }
    assert forall|t: int, i: int|
        0 <= t < tagged.len() && 0 <= i < tagged[t].len() implies (
    #[trigger] tagged[t][i]).track == t && tagged[t][i].pos == i by {
        assert(tagged[t] == tag_track(ts[t], t));
        assert(tagged[t][i].track == t as usize);
        assert(tagged[t][i].pos == i as usize);
    }
    assert(tags_consistent(tagged));
    lemma_merge_all_ensures(tagged);
    lemma_merge_all_stable(tagged);
    assert forall|i: int| 0 <= i < merged_model(ts).len() implies abs_time_at(
        untag(merged_model(ts)),
        i,
    ) == (#[trigger] merged_model(ts)[i]).time by {
        lemma_untag_reconstructs(merged_model(ts), i);
    }
}

fn tag_events(track: &Vec<Event>, t: usize) -> (r: Vec<Tagged>)
    requires
        ticks_fit(track@),
    ensures
        r@ == tag_track(track@, t as int),
{
    let mut items: Vec<Tagged> = Vec::new();
    let mut acc: u64 = 0;
    let mut i: usize = 0;
    while i < track.len()
        invariant
            0 <= i <= track@.len(),
            ticks_fit(track@),
            acc == total_ticks(track@.take(i as int)),
            items@.len() == i,
            forall|k: int| 0 <= k < i ==> items@[k] == tag_track(track@, t as int)[k],
        decreases track@.len() - i,
    {
        proof {
            lemma_total_ticks_step(track@, i as int);
            lemma_total_ticks_take_le(track@, i as int + 1);
            lemma_total_ticks_nonneg(track@.take(i as int));
        }
        acc = acc + track[i].delta;
        items.push(
            Tagged { time: acc, track: t, pos: i, payload: track[i].payload },
        );
        i = i + 1;
    }
    proof {
        assert(items@ =~= tag_track(track@, t as int));
    }
    items
}

proof fn lemma_merge2_unfold_left(a: Seq<Tagged>, b: Seq<Tagged>)
    requires
        a.len() > 0,
        b.len() == 0 || a[0].time <= b[0].time,
    ensures
        merge2(a, b) == seq![a[0]] + merge2(a.drop_first(), b),
{
    if b.len() == 0 {
        assert(a =~= seq![a[0]] + a.drop_first());
        if a.drop_first().len() == 0 {
            assert(merge2(a.drop_first(), b) =~= a.drop_first());
        }
    }
}

proof fn lemma_merge2_unfold_right(a: Seq<Tagged>, b: Seq<Tagged>)
    requires
        b.len() > 0,
        a.len() == 0 || b[0].time < a[0].time,
    ensures
        merge2(a, b) == seq![b[0]] + merge2(a, b.drop_first()),
{
    if a.len() == 0 {
        assert(b =~= seq![b[0]] + b.drop_first());
        if b.drop_first().len() == 0 {
            assert(merge2(a, b.drop_first()) =~= b.drop_first());
        }
    }
}

fn merge_pair(a: &Vec<Tagged>, b: &Vec<Tagged>) -> (r: Vec<Tagged>)
    ensures
        r@ == merge2(a@, b@),
{
    let mut out: Vec<Tagged> = Vec::new();
    let mut i: usize = 0;
    let mut j: usize = 0;
    proof {
        assert(Seq::<Tagged>::empty() + merge2(a@, b@) =~= merge2(a@, b@));
        assert(a@.skip(0) =~= a@);
        assert(b@.skip(0) =~= b@);
    }
    while i < a.len() || j < b.len()
        invariant
            0 <= i <= a@.len(),
            0 <= j <= b@.len(),
            out@ + merge2(a@.skip(i as int), b@.skip(j as int)) == merge2(a@, b@),
        decreases a@.len() - i + b@.len() - j,
    {
        let ghost ra = a@.skip(i as int);
        let ghost rb = b@.skip(j as int);
        if i < a.len() && (j >= b.len() || a[i].time <= b[j].time) {
            proof {
                assert(ra[0] == a@[i as int]);
                assert(ra.drop_first() =~= a@.skip(i as int + 1));
                lemma_merge2_unfold_left(ra, rb);
                assert((out@ + seq![a@[i as int]]) + merge2(
                    a@.skip(i as int + 1),
                    rb,
                ) =~= out@ + (seq![a@[i as int]] + merge2(a@.skip(i as int + 1), rb)));
                assert(out@ + seq![a@[i as int]] =~= out@.push(a@[i as int]));
            }
            out.push(a[i]);
            i = i + 1;
        } else {
            proof {
                assert(rb[0] == b@[j as int]);
                assert(rb.drop_first() =~= b@.skip(j as int + 1));
                lemma_merge2_unfold_right(ra, rb);
                assert((out@ + seq![b@[j as int]]) + merge2(
                    ra,
                    b@.skip(j as int + 1),
                ) =~= out@ + (seq![b@[j as int]] + merge2(ra, b@.skip(j as int + 1))));
                assert(out@ + seq![b@[j as int]] =~= out@.push(b@[j as int]));
            }
            out.push(b[j]);
            j = j + 1;
        }
    }
    proof {
        assert(a@.skip(a@.len() as int) =~= Seq::<Tagged>::empty());
        assert(b@.skip(b@.len() as int) =~= Seq::<Tagged>::empty());
        assert(out@ + Seq::<Tagged>::empty() =~= out@);
    }
    out
}

fn strip_to_deltas(m: &Vec<Tagged>) -> (r: Vec<Event>)
    requires
        time_sorted(m@),
    ensures
        r@ == untag(m@),
{
    let mut out: Vec<Event> = Vec::new();
    let mut prev: u64 = 0;
    let mut i: usize = 0;
    while i < m.len()
        invariant
            0 <= i <= m@.len(),
            time_sorted(m@),
            out@.len() == i,
            prev == if i == 0 {
                0int
            } else {
                m@[i as int - 1].time as int
            },
            forall|k: int| 0 <= k < i ==> out@[k] == untag(m@)[k],
        decreases m@.len() - i,
    {
        proof {
            if i > 0 {
                assert(m@[i as int - 1].time <= m@[i as int].time);
            }
        }
        let d = m[i].time - prev;
        out.push(Event { delta: d, payload: m[i].payload });
        prev = m[i].time;
        i = i + 1;
    }
    proof {
        assert(out@ =~= untag(m@));
    }
    out
}

/// The views of a vector of tracks.
pub open spec fn track_views(tracks: Seq<Vec<Event>>) -> Seq<Seq<Event>> {
    tracks.map_values(|v: Vec<Event>| v@)
}

/// Decides whether a track's accumulated tick times all fit in `u64`, the
/// bound the merger and the resolver ask of their input.
pub fn track_fits(track: &Vec<Event>) -> (b: bool)
    ensures
        b == ticks_fit(track@),
{
    let mut acc: u64 = 0;
    let mut i: usize = 0;
    while i < track.len()
        invariant
            0 <= i <= track@.len(),
            acc == total_ticks(track@.take(i as int)),
        decreases track@.len() - i,
    {
        proof {
            lemma_total_ticks_step(track@, i as int);
        }
        if track[i].delta > u64::MAX - acc {
            proof {
                lemma_total_ticks_take_le(track@, i as int + 1);
            }
            return false;
        }
        acc = acc + track[i].delta;
        i = i + 1;
    }
    proof {
        assert(track@.take(track@.len() as int) =~= track@);
    }
    true
}

/// Decides whether every track of a set meets the merger's input bound.
pub fn tracks_fit(tracks: &Vec<Vec<Event>>) -> (b: bool)
    ensures
        b == (forall|t: int|
            0 <= t < tracks@.len() ==> ticks_fit(#[trigger] track_views(tracks@)[t])),
{
    let mut t: usize = 0;
    while t < tracks.len()
        invariant
            0 <= t <= tracks@.len(),
            forall|k: int| 0 <= k < t ==> ticks_fit(#[trigger] track_views(tracks@)[k]),
        decreases tracks@.len() - t,
    {
        if !track_fits(&tracks[t]) {
            proof {
                assert(track_views(tracks@)[t as int] == tracks@[t as int]@);
            }
            return false;
        }
        t = t + 1;
    }
    true
}

/// Merges the tracks into one globally time-ordered sequence with deltas
/// relative to the previous event of the merged order. An empty track list
/// yields an empty sequence. Requires only that each track's accumulated
/// tick times fit in `u64`.
pub fn merge_tracks(tracks: &Vec<Vec<Event>>) -> (r: Vec<Event>)
    requires
        forall|t: int|
            0 <= t < tracks@.len() ==> ticks_fit(#[trigger] track_views(tracks@)[t]),
    ensures
        r@ == untag(merged_model(track_views(tracks@))),
        ticks_fit(r@),
{
    let ghost ts = track_views(tracks@);
    let mut acc: Vec<Tagged> = Vec::new();
    let mut t: usize = 0;
    proof {
        assert(tag_all(ts).take(0) =~= Seq::<Seq<Tagged>>::empty());
    }
    while t < tracks.len()
        invariant
            0 <= t <= tracks@.len(),
            ts == track_views(tracks@),
            forall|k: int| 0 <= k < tracks@.len() ==> ticks_fit(#[trigger] ts[k]),
            acc@ == merge_all(tag_all(ts).take(t as int)),
        decreases tracks@.len() - t,
    {
        proof {
            assert(ts[t as int] == tracks@[t as int]@);
            assert(ticks_fit(tracks@[t as int]@));
        }
        let tagged = tag_events(&tracks[t], t);
        proof {
            assert(tagged@ == tag_all(ts)[t as int]);
            assert(tag_all(ts).take(t as int + 1).drop_last() =~= tag_all(ts).take(
                t as int,
            ));
            assert(tag_all(ts).take(t as int + 1).last() == tag_all(ts)[t as int]);
        }
        acc = merge_pair(&acc, &tagged);
        t = t + 1;
    }
    proof {
        assert(tag_all(ts).take(tracks@.len() as int) =~= tag_all(ts));
        assert forall|k: int| 0 <= k < tag_all(ts).len() implies time_sorted(
            #[trigger] tag_all(ts)[k],
        ) by {
            lemma_tag_track_times(ts[k], k);
        }
        lemma_merge_all_ensures(tag_all(ts));
        if acc@.len() > 0 {
            lemma_untag_reconstructs(acc@, acc@.len() - 1);
            assert(untag(acc@).take(untag(acc@).len() as int) =~= untag(acc@));
        }
    }
    strip_to_deltas(&acc)
}

} // verus!
