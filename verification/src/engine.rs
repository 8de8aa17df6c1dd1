//! The round executor of the tally: candidates are tracked by index here,
//! ballots are sequences of candidate indices. The string-facing interface
//! lives in `stv`.

use crate::rng::Lcg;
use crate::spec_droop_quota;
use vstd::multiset::Multiset;
use vstd::prelude::*;

verus! {

/// Where one candidate stands during the count.
#[derive(Clone, Copy, PartialEq, Eq, Structural, Debug)]
pub enum CandStatus {
    Live,
    Elected,
    Eliminated,
}

/// Every preference on the ballot names one of the `n` candidates.
pub open spec fn ballot_ok(n: int, b: Seq<usize>) -> bool {
    forall|j: int| 0 <= j < b.len() ==> b[j] < n
}

/// How many in-play ballots sit on candidate `c`'s pile.
pub open spec fn count_tagged(s: Seq<(usize, Vec<usize>)>, c: int) -> int
    decreases s.len(),
{
    if s.len() == 0 {
        0
    } else {
        count_tagged(s.drop_last(), c) + if s.last().0 == c {
            1int
        } else {
            0int
        }
    }
}

pub proof fn lemma_count_tagged_bounds(s: Seq<(usize, Vec<usize>)>, c: int)
    ensures
        0 <= count_tagged(s, c) <= s.len(),
    decreases s.len(),
{
    if s.len() > 0 {
        lemma_count_tagged_bounds(s.drop_last(), c);
    }
}

/// A sequence without `c`-tagged entries has an empty `c` pile.
pub proof fn lemma_count_tagged_none(s: Seq<(usize, Vec<usize>)>, c: int)
    requires
        forall|i: int| 0 <= i < s.len() ==> (#[trigger] s[i]).0 != c,
    ensures
        count_tagged(s, c) == 0,
    decreases s.len(),
{
    if s.len() > 0 {
        lemma_count_tagged_none(s.drop_last(), c);
    }
}

pub proof fn lemma_count_tagged_push(s: Seq<(usize, Vec<usize>)>, e: (usize, Vec<usize>), c: int)
    ensures
        count_tagged(s.push(e), c) == count_tagged(s, c) + if e.0 == c {
            1int
        } else {
            0int
        },
{
    assert(s.push(e).drop_last() =~= s);
    assert(s.push(e).last() == e);
}

/// The multiset of ballots sitting on candidate `c`'s pile.
pub open spec fn pile_multiset(s: Seq<(usize, Vec<usize>)>, c: int) -> Multiset<Vec<usize>>
    decreases s.len(),
{
    if s.len() == 0 {
        Multiset::empty()
    } else {
        let rest = pile_multiset(s.drop_last(), c);
        if s.last().0 == c {
            rest.insert(s.last().1)
        } else {
            rest
        }
    }
}

/// How many first preferences each candidate holds: the number of ballots
/// whose most-preferred entry is `c`.
pub open spec fn first_pref_count(ballots: Seq<Vec<usize>>, c: int) -> int
    decreases ballots.len(),
{
    if ballots.len() == 0 {
        0
    } else {
        first_pref_count(ballots.drop_last(), c) + if ballots.last()@.len() > 0
            && ballots.last()@[0] == c {
            1int
        } else {
            0int
        }
    }
}

/// How many candidates are still live.
pub open spec fn count_live(s: Seq<CandStatus>) -> int
    decreases s.len(),
{
    if s.len() == 0 {
        0
    } else {
        count_live(s.drop_last()) + if s.last() == CandStatus::Live {
            1int
        } else {
            0int
        }
    }
}

pub proof fn lemma_count_live_bounds(s: Seq<CandStatus>)
    ensures
        0 <= count_live(s) <= s.len(),
    decreases s.len(),
{
    if s.len() > 0 {
        lemma_count_live_bounds(s.drop_last());
    }
}

pub proof fn lemma_count_live_update(s: Seq<CandStatus>, i: int, v: CandStatus)
    requires
        0 <= i < s.len(),
    ensures
        count_live(s.update(i, v)) == count_live(s) - (if s[i] == CandStatus::Live {
            1int
        } else {
            0int
        }) + (if v == CandStatus::Live {
            1int
        } else {
            0int
        }),
    decreases s.len(),
{
    let t = s.update(i, v);
    if i == s.len() - 1 {
        assert(t.drop_last() =~= s.drop_last());
    } else {
        assert(t.drop_last() =~= s.drop_last().update(i, v));
        lemma_count_live_update(s.drop_last(), i, v);
    }
}

/// If no candidate is live, counting live entries gives zero.
pub proof fn lemma_count_live_zero(s: Seq<CandStatus>)
    requires
        forall|c: int| 0 <= c < s.len() ==> s[c] != CandStatus::Live,
    ensures
        count_live(s) == 0,
    decreases s.len(),
{
    if s.len() > 0 {
        lemma_count_live_zero(s.drop_last());
    }
}

/// The most-preferred candidate on `b` that is still live, if any.
pub open spec fn spec_first_live(status: Seq<CandStatus>, b: Seq<usize>) -> Option<usize>
    decreases b.len(),
{
    if b.len() == 0 {
        None
    } else if status[b[0] as int] == CandStatus::Live {
        Some(b[0])
    } else {
        spec_first_live(status, b.drop_first())
    }
}

/// Where settling sends a batch of pending ballots: each one is tagged with
/// its most-preferred live candidate; ballots with no live preference left
/// are dropped (they exhaust).
pub open spec fn assigned_multiset(status: Seq<CandStatus>, pending: Seq<Vec<usize>>) -> Multiset<
    (usize, Vec<usize>),
>
    decreases pending.len(),
{
    if pending.len() == 0 {
        Multiset::empty()
    } else {
        let rest = assigned_multiset(status, pending.drop_last());
        match spec_first_live(status, pending.last()@) {
            Some(c) => rest.insert((c, pending.last())),
            None => rest,
        }
    }
}

/// How many of the pending ballots have no live preference left.
pub open spec fn count_exhausted(status: Seq<CandStatus>, pending: Seq<Vec<usize>>) -> int
    decreases pending.len(),
{
    if pending.len() == 0 {
        0
    } else {
        count_exhausted(status, pending.drop_last()) + if spec_first_live(
            status,
            pending.last()@,
        ) is None {
            1int
        } else {
            0int
        }
    }
}

/// How many of the pending ballots settle on candidate `c`'s pile.
pub open spec fn count_assigned(status: Seq<CandStatus>, pending: Seq<Vec<usize>>, c: int) -> int
    decreases pending.len(),
{
    if pending.len() == 0 {
        0
    } else {
        count_assigned(status, pending.drop_last(), c) + match spec_first_live(
            status,
            pending.last()@,
        ) {
            Some(x) => if x == c {
                1int
            } else {
                0int
            },
            None => 0int,
        }
    }
}

/// Under an all-live status, a ballot's first live preference is simply its
/// first entry, so settling counts first preferences.
pub proof fn lemma_count_assigned_all_live(
    status: Seq<CandStatus>,
    pending: Seq<Vec<usize>>,
    c: int,
)
    requires
        forall|i: int| 0 <= i < status.len() ==> status[i] == CandStatus::Live,
        forall|i: int| 0 <= i < pending.len() ==> ballot_ok(status.len() as int, (#[trigger] pending[i])@),
    ensures
        count_assigned(status, pending, c) == first_pref_count(pending, c),
    decreases pending.len(),
{
    if pending.len() > 0 {
        lemma_count_assigned_all_live(status, pending.drop_last(), c);
    }
}

/// Finds the ballot's most-preferred still-live candidate.
pub fn first_live(status: &Vec<CandStatus>, b: &Vec<usize>) -> (r: Option<usize>)
    requires
        ballot_ok(status@.len() as int, b@),
    ensures
        r == spec_first_live(status@, b@),
{
    let n = b.len();
    let mut i: usize = 0;
    proof {
        assert(b@.skip(0) =~= b@);
    }
    while i < n
        invariant
            n == b@.len(),
            0 <= i <= n,
            ballot_ok(status@.len() as int, b@),
            spec_first_live(status@, b@) == spec_first_live(status@, b@.skip(i as int)),
        decreases n - i,
    {
        let c = b[i];
        proof {
            assert(b@.skip(i as int)[0] == b@[i as int]);
            assert(b@.skip(i as int).drop_first() =~= b@.skip(i as int + 1));
        }
        if status[c] == CandStatus::Live {
            return Some(c);
        }
        i = i + 1;
    }
    proof {
        assert(b@.skip(n as int).len() == 0);
    }
    None
}

/// Takes candidate `c`'s pile out of the in-play ballots: returns the other
/// entries and the ballots that sat on `c`'s pile. The counts of every other
/// pile are unchanged.
pub fn split_by_tag(in_play: Vec<(usize, Vec<usize>)>, c: usize) -> (r: (
    Vec<(usize, Vec<usize>)>,
    Vec<Vec<usize>>,
))
    ensures
        r.0@.len() + r.1@.len() == in_play@.len(),
        r.1@.len() == count_tagged(in_play@, c as int),
        r.1@.to_multiset() == pile_multiset(in_play@, c as int),
        forall|d: int| d != c ==> count_tagged(r.0@, d) == count_tagged(in_play@, d),
        forall|i: int|
            0 <= i < r.0@.len() ==> in_play@.contains(#[trigger] r.0@[i]) && r.0@[i].0 != c,
        forall|i: int|
            0 <= i < r.1@.len() ==> in_play@.contains((c, #[trigger] r.1@[i])),
{
    proof {
        broadcast use vstd::seq_lib::group_to_multiset_ensures;

    }
    let mut rest = in_play;
    let mut kept: Vec<(usize, Vec<usize>)> = Vec::new();
    let mut out: Vec<Vec<usize>> = Vec::new();
    while rest.len() > 0
        invariant
            kept@.len() + out@.len() + rest@.len() == in_play@.len(),
            forall|d: int|
                count_tagged(in_play@, d) == count_tagged(rest@, d) + count_tagged(kept@, d) + if d
                    == c {
                    out@.len() as int
                } else {
                    0int
                },
            pile_multiset(in_play@, c as int) == pile_multiset(rest@, c as int).add(
                out@.to_multiset(),
            ),
            forall|i: int|
                0 <= i < kept@.len() ==> in_play@.contains(#[trigger] kept@[i]) && kept@[i].0 != c,
            forall|i: int|
                0 <= i < out@.len() ==> in_play@.contains((c, #[trigger] out@[i])),
            forall|i: int| 0 <= i < rest@.len() ==> in_play@.contains(#[trigger] rest@[i]),
        decreases rest@.len(),
    {
        let ghost old_rest = rest@;
        let ghost old_kept = kept@;
        let ghost old_out = out@;
        let e = rest.pop().unwrap();
        proof {
            assert(old_rest.drop_last() =~= rest@);
            assert(in_play@.contains(old_rest.last()));
        }
        if e.0 == c {
            out.push(e.1);
            proof {
                assert((c, e.1) == e);
                broadcast use vstd::seq_lib::group_to_multiset_ensures;

                assert(out@.to_multiset() =~= old_out.to_multiset().insert(e.1));
                assert(pile_multiset(old_rest, c as int) == pile_multiset(rest@, c as int).insert(
                    e.1,
                ));
                assert(pile_multiset(rest@, c as int).insert(e.1).add(old_out.to_multiset())
                    =~= pile_multiset(rest@, c as int).add(out@.to_multiset()));
            }
        } else {
            kept.push(e);
            proof {
                assert forall|d: int|
                    count_tagged(kept@, d) == count_tagged(old_kept, d) + (if e.0 == d {
                        1int
                    } else {
                        0int
                    }) by {
                    lemma_count_tagged_push(old_kept, e, d);
                };
            }
        }
    }
    proof {
        lemma_count_tagged_none(kept@, c as int);
        broadcast use vstd::seq_lib::group_to_multiset_ensures;

        assert(pile_multiset(rest@, c as int).add(out@.to_multiset()) =~= out@.to_multiset());
    }
    (kept, out)
}

/// No two entries decide the same candidate.
pub open spec fn distinct_firsts(s: Seq<(usize, usize)>) -> bool {
    forall|i: int, j: int| 0 <= i < j < s.len() ==> s[i].0 != s[j].0
}

pub proof fn lemma_first_live_some(status: Seq<CandStatus>, b: Seq<usize>, c: usize)
    requires
        ballot_ok(status.len() as int, b),
        spec_first_live(status, b) == Some(c),
    ensures
        c < status.len(),
        status[c as int] == CandStatus::Live,
    decreases b.len(),
{
    if b.len() > 0 && status[b[0] as int] != CandStatus::Live {
        assert(ballot_ok(status.len() as int, b.drop_first()));
        lemma_first_live_some(status, b.drop_first(), c);
    }
}

/// No more candidates can reach the quota than there are seats: a winner
/// permanently holds `quota` ballots, and `quota * (seats + 1)` exceeds the
/// valid-ballot total.
pub proof fn lemma_droop_seat_bound(valid: int, seats: int, quota: int, k: int)
    requires
        valid >= 0,
        seats >= 1,
        quota == spec_droop_quota(valid, seats),
        0 <= k,
        quota * k <= valid,
    ensures
        k <= seats,
{
    let d = seats + 1;
    let q0 = valid / d;
    vstd::arithmetic::div_mod::lemma_fundamental_div_mod(valid, d);
    vstd::arithmetic::div_mod::lemma_mod_division_less_than_divisor(valid, d);
    assert(d * q0 >= valid - seats);
    assert(quota * d == (q0 + 1) * d);
    vstd::arithmetic::mul::lemma_mul_is_distributive_add_other_way(d, q0, 1);
    vstd::arithmetic::mul::lemma_mul_is_commutative(q0, d);
    assert(quota * d >= valid + 1);
    if k > seats {
        vstd::arithmetic::mul::lemma_mul_inequality(d, k, quota);
        vstd::arithmetic::mul::lemma_mul_is_commutative(d, quota);
        vstd::arithmetic::mul::lemma_mul_is_commutative(k, quota);
        assert(quota * k >= quota * d);
        assert(false);
    }
}

/// The running state of one tally: statuses, piles of in-play ballots, the
/// frozen decisions, and the exhausted-ballot count.
pub struct Engine {
    /// Number of candidates; candidates are the indices `0 .. n`.
    pub n: usize,
    pub seats: usize,
    pub quota: usize,
    /// Count of ballots that survived the spoiled-ballot purge.
    pub valid: usize,
    pub status: Vec<CandStatus>,
    /// In-play ballots, each tagged with the live candidate whose pile it
    /// currently sits on.
    pub in_play: Vec<(usize, Vec<usize>)>,
    /// Winners in decision order, each with its pile size at win time.
    pub elected: Vec<(usize, usize)>,
    /// Losers in decision order, each with its pile size at loss time.
    pub eliminated: Vec<(usize, usize)>,
    /// Ballots whose preferences were used up during a transfer.
    pub exhausted: usize,
    pub rounds: usize,
    pub rng: Lcg,
}

impl Engine {
    /// The engine invariant, with `pending` ballots in flight between piles.
    pub open spec fn inv_pending(self, pending: int) -> bool {
        &&& self.status@.len() == self.n
        &&& self.n >= 1
        &&& self.seats >= 1
        &&& self.quota == spec_droop_quota(self.valid as int, self.seats as int)
        &&& self.quota >= 1
        &&& forall|i: int|
            0 <= i < self.in_play@.len() ==> {
                let e = #[trigger] self.in_play@[i];
                &&& e.0 < self.n
                &&& ballot_ok(self.n as int, e.1@)
                &&& self.status@[e.0 as int] == CandStatus::Live
            }
        &&& self.in_play@.len() + self.quota * self.elected@.len() + self.exhausted + pending
            == self.valid
        &&& self.elected@.len() <= self.seats
        &&& forall|i: int|
            0 <= i < self.elected@.len() ==> {
                let e = #[trigger] self.elected@[i];
                &&& e.0 < self.n
                &&& self.status@[e.0 as int] == CandStatus::Elected
                &&& self.quota <= e.1 <= self.valid
            }
        &&& forall|i: int|
            0 <= i < self.eliminated@.len() ==> {
                let e = #[trigger] self.eliminated@[i];
                &&& e.0 < self.n
                &&& self.status@[e.0 as int] == CandStatus::Eliminated
                &&& e.1 < self.quota
                &&& e.1 <= self.valid
            }
        &&& distinct_firsts(self.elected@)
        &&& distinct_firsts(self.eliminated@)
        &&& count_live(self.status@) + self.elected@.len() + self.eliminated@.len() == self.n
        &&& self.rounds + count_live(self.status@) <= self.n
    }

    /// The engine invariant between rounds: no ballot is in flight.
    pub open spec fn inv(self) -> bool {
        self.inv_pending(0)
    }

    /// Assigns every pending ballot to the pile of its most-preferred live
    /// candidate; a ballot with no live preference left is exhausted.
    pub fn settle(&mut self, pending: Vec<Vec<usize>>)
        requires
            old(self).inv_pending(pending@.len() as int),
            forall|i: int|
                0 <= i < pending@.len() ==> ballot_ok(old(self).n as int, #[trigger] pending@[i]@),
        ensures
            final(self).inv(),
            final(self).in_play@.to_multiset() == old(self).in_play@.to_multiset().add(
                assigned_multiset(old(self).status@, pending@),
            ),
            final(self).exhausted == old(self).exhausted + count_exhausted(
                old(self).status@,
                pending@,
            ),
            forall|c: int|
                count_tagged(final(self).in_play@, c) == count_tagged(old(self).in_play@, c)
                    + count_assigned(old(self).status@, pending@, c),
            final(self).n == old(self).n,
            final(self).seats == old(self).seats,
            final(self).quota == old(self).quota,
            final(self).valid == old(self).valid,
            final(self).status == old(self).status,
            final(self).elected == old(self).elected,
            final(self).eliminated == old(self).eliminated,
            final(self).rounds == old(self).rounds,
    {
        proof {
            broadcast use vstd::seq_lib::group_to_multiset_ensures;

        }
        let ghost pending0 = pending@;
        let mut pending = pending;
        while pending.len() > 0
            invariant
                self.inv_pending(pending@.len() as int),
                forall|i: int|
                    0 <= i < pending@.len() ==> ballot_ok(self.n as int, #[trigger] pending@[i]@),
                self.in_play@.to_multiset().add(
                    assigned_multiset(old(self).status@, pending@),
                ) == old(self).in_play@.to_multiset().add(
                    assigned_multiset(old(self).status@, pending0),
                ),
                self.exhausted + count_exhausted(old(self).status@, pending@) == old(self).exhausted
                    + count_exhausted(old(self).status@, pending0),
                forall|c: int|
                    count_tagged(self.in_play@, c) + count_assigned(
                        old(self).status@,
                        pending@,
                        c,
                    ) == count_tagged(old(self).in_play@, c) + count_assigned(
                        old(self).status@,
                        pending0,
                        c,
                    ),
                self.n == old(self).n,
                self.seats == old(self).seats,
                self.quota == old(self).quota,
                self.valid == old(self).valid,
                self.status == old(self).status,
                self.elected == old(self).elected,
                self.eliminated == old(self).eliminated,
                self.rounds == old(self).rounds,
            decreases pending@.len(),
        {
            let ghost old_pending = pending@;
            let ghost old_in_play = self.in_play@;
            let b = pending.pop().unwrap();
            proof {
                assert(old_pending.drop_last() =~= pending@);
                assert(b == old_pending.last());
            }
            match first_live(&self.status, &b) {
                Some(c) => {
                    proof {
                        lemma_first_live_some(self.status@, b@, c);
                    }
                    self.in_play.push((c, b));
                    proof {
                        broadcast use vstd::seq_lib::group_to_multiset_ensures;

                        assert(self.in_play@.to_multiset() =~= old_in_play.to_multiset().insert(
                            (c, b),
                        ));
                        assert(assigned_multiset(old(self).status@, old_pending)
                            == assigned_multiset(old(self).status@, pending@).insert((c, b)));
                        assert(old_in_play.to_multiset().insert((c, b)).add(
                            assigned_multiset(old(self).status@, pending@),
                        ) =~= old_in_play.to_multiset().add(
                            assigned_multiset(old(self).status@, pending@).insert((c, b)),
                        ));
                        assert forall|d: int|
                            count_tagged(self.in_play@, d) + count_assigned(
                                old(self).status@,
                                pending@,
                                d,
                            ) == count_tagged(old_in_play, d) + count_assigned(
                                old(self).status@,
                                old_pending,
                                d,
                            ) by {
                            lemma_count_tagged_push(old_in_play, (c, b), d);
                        };
                    }
                }
                None => {
                    self.exhausted = self.exhausted + 1;
                }
            }
        }
        proof {
            assert(assigned_multiset(old(self).status@, pending@) =~= Multiset::<
                (usize, Vec<usize>),
            >::empty());
            assert(self.in_play@.to_multiset().add(
                assigned_multiset(old(self).status@, pending@),
            ) =~= self.in_play@.to_multiset());
        }
    }

    /// The current size of every pile.
    pub fn pile_counts(&self) -> (counts: Vec<usize>)
        requires
            self.status@.len() == self.n,
            forall|i: int|
                0 <= i < self.in_play@.len() ==> (#[trigger] self.in_play@[i]).0 < self.n,
        ensures
            counts@.len() == self.n,
            forall|d: int| 0 <= d < self.n ==> counts@[d] == count_tagged(self.in_play@, d),
    {
        let mut counts: Vec<usize> = vec![0usize; self.n];
        let m = self.in_play.len();
        let mut i: usize = 0;
        proof {
            assert(self.in_play@.take(0) =~= Seq::<(usize, Vec<usize>)>::empty());
        }
        while i < m
            invariant
                m == self.in_play@.len(),
                0 <= i <= m,
                counts@.len() == self.n,
                forall|i2: int|
                    0 <= i2 < self.in_play@.len() ==> (#[trigger] self.in_play@[i2]).0 < self.n,
                forall|d: int|
                    0 <= d < self.n ==> counts@[d] == count_tagged(
                        self.in_play@.take(i as int),
                        d,
                    ),
            decreases m - i,
        {
            let t = self.in_play[i].0;
            let ghost old_counts = counts@;
            proof {
                lemma_count_tagged_bounds(self.in_play@.take(i as int), t as int);
            }
            counts[t] = counts[t] + 1;
            proof {
                let prefix = self.in_play@.take(i as int);
                let next = self.in_play@.take(i as int + 1);
                assert(next.drop_last() =~= prefix);
                assert(next.last() == self.in_play@[i as int]);
                assert forall|d: int| 0 <= d < self.n implies counts@[d] == count_tagged(
                    next,
                    d,
                ) by {
                    assert(count_tagged(next, d) == count_tagged(prefix, d) + (if t == d {
                        1int
                    } else {
                        0int
                    }));
                };
            }
            i = i + 1;
        }
        proof {
            assert(self.in_play@.take(m as int) =~= self.in_play@);
        }
        counts
    }

    /// All live candidates whose pile has reached the quota, in candidate
    /// order. Every one of them wins this round, simultaneously.
    pub fn round_winners(&self) -> (ws: Vec<usize>)
        requires
            self.status@.len() == self.n,
            forall|i: int|
                0 <= i < self.in_play@.len() ==> (#[trigger] self.in_play@[i]).0 < self.n,
        ensures
            forall|i: int|
                0 <= i < ws@.len() ==> (#[trigger] ws@[i]) < self.n && self.status@[ws@[i] as int]
                    == CandStatus::Live && count_tagged(self.in_play@, ws@[i] as int)
                    >= self.quota,
            forall|i: int, j: int| 0 <= i < j < ws@.len() ==> ws@[i] != ws@[j],
            forall|c: int|
                #![trigger self.status@[c]]
                0 <= c < self.n && self.status@[c] == CandStatus::Live && count_tagged(
                    self.in_play@,
                    c,
                ) >= self.quota ==> ws@.contains(c as usize),
    {
        let counts = self.pile_counts();
        let mut ws: Vec<usize> = Vec::new();
        let mut c: usize = 0;
        while c < self.n
            invariant
                0 <= c <= self.n,
                self.status@.len() == self.n,
                counts@.len() == self.n,
                forall|d: int| 0 <= d < self.n ==> counts@[d] == count_tagged(self.in_play@, d),
                forall|i: int|
                    0 <= i < ws@.len() ==> (#[trigger] ws@[i]) < c
                        && self.status@[ws@[i] as int] == CandStatus::Live && count_tagged(
                        self.in_play@,
                        ws@[i] as int,
                    ) >= self.quota,
                forall|i: int, j: int| 0 <= i < j < ws@.len() ==> ws@[i] != ws@[j],
                forall|c2: int|
                    #![trigger self.status@[c2]]
                    0 <= c2 < c && self.status@[c2] == CandStatus::Live && count_tagged(
                        self.in_play@,
                        c2,
                    ) >= self.quota ==> ws@.contains(c2 as usize),
            decreases self.n - c,
        {
            if self.status[c] == CandStatus::Live && counts[c] >= self.quota {
                let ghost old_ws = ws@;
                ws.push(c);
                proof {
                    assert(ws@[old_ws.len() as int] == c);
                    assert(forall|i: int| 0 <= i < old_ws.len() ==> ws@[i] == old_ws[i]);
                }
            }
            c = c + 1;
        }
        ws
    }

    /// The live candidate with the strictly smallest pile; ties go to the
    /// earliest candidate in the fixed candidate order. `None` when no live
    /// candidate remains.
    pub fn smallest_live(&self) -> (r: Option<usize>)
        requires
            self.status@.len() == self.n,
            forall|i: int|
                0 <= i < self.in_play@.len() ==> (#[trigger] self.in_play@[i]).0 < self.n,
        ensures
            match r {
                Some(c) => c < self.n && self.status@[c as int] == CandStatus::Live && forall|
                    d: int,
                |
                    #![trigger self.status@[d]]
                    0 <= d < self.n && self.status@[d] == CandStatus::Live ==> count_tagged(
                        self.in_play@,
                        c as int,
                    ) <= count_tagged(self.in_play@, d),
                None => forall|c: int|
                    0 <= c < self.n ==> #[trigger] self.status@[c] != CandStatus::Live,
            },
    {
        let counts = self.pile_counts();
        let mut best: Option<usize> = None;
        let mut c: usize = 0;
        while c < self.n
            invariant
                0 <= c <= self.n,
                self.status@.len() == self.n,
                counts@.len() == self.n,
                forall|d: int| 0 <= d < self.n ==> counts@[d] == count_tagged(self.in_play@, d),
                match best {
                    Some(b) => b < c && self.status@[b as int] == CandStatus::Live && forall|
                        d: int,
                    |
                        #![trigger self.status@[d]]
                        0 <= d < c && self.status@[d] == CandStatus::Live ==> count_tagged(
                            self.in_play@,
                            b as int,
                        ) <= count_tagged(self.in_play@, d),
                    None => forall|d: int|
                        0 <= d < c ==> #[trigger] self.status@[d] != CandStatus::Live,
                },
            decreases self.n - c,
        {
            if self.status[c] == CandStatus::Live {
                match best {
                    None => {
                        best = Some(c);
                    }
                    Some(b) => {
                        if counts[c] < counts[b] {
                            best = Some(c);
                        }
                    }
                }
            }
            c = c + 1;
        }
        best
    }

    /// Elects candidate `w`: freezes its pile size, draws the surplus at
    /// random from its pile onto `pending`, and drops the rest of the pile
    /// out of play.
    pub fn elect_one(&mut self, w: usize, pending: &mut Vec<Vec<usize>>)
        requires
            old(self).inv_pending(old(pending)@.len() as int),
            w < old(self).n,
            old(self).status@[w as int] == CandStatus::Live,
            count_tagged(old(self).in_play@, w as int) >= old(self).quota,
            forall|i: int|
                0 <= i < old(pending)@.len() ==> ballot_ok(
                    old(self).n as int,
                    #[trigger] old(pending)@[i]@,
                ),
        ensures
            final(self).inv_pending(final(pending)@.len() as int),
            forall|i: int|
                0 <= i < final(pending)@.len() ==> ballot_ok(
                    final(self).n as int,
                    #[trigger] final(pending)@[i]@,
                ),
            final(self).n == old(self).n,
            final(self).seats == old(self).seats,
            final(self).quota == old(self).quota,
            final(self).valid == old(self).valid,
            final(self).rounds == old(self).rounds,
            final(self).eliminated == old(self).eliminated,
            final(self).elected@ == old(self).elected@.push(
                (w, count_tagged(old(self).in_play@, w as int) as usize),
            ),
            exists|drawn: Multiset<Vec<usize>>|
                final(pending)@.to_multiset() == old(pending)@.to_multiset().add(drawn)
                    && drawn.subset_of(pile_multiset(old(self).in_play@, w as int)) && drawn.len()
                    == count_tagged(old(self).in_play@, w as int) - old(self).quota,
            final(self).status@.len() == old(self).status@.len(),
            final(self).status@[w as int] == CandStatus::Elected,
            forall|d: int|
                0 <= d < old(self).status@.len() && d != w ==> final(self).status@[d] == old(
                    self,
                ).status@[d],
            count_live(final(self).status@) == count_live(old(self).status@) - 1,
            forall|d: int|
                d != w ==> count_tagged(final(self).in_play@, d) == count_tagged(
                    old(self).in_play@,
                    d,
                ),
    {
        let ghost pre = *self;
        let ghost pending0 = pending@;
        let mut tmp: Vec<(usize, Vec<usize>)> = Vec::new();
        core::mem::swap(&mut tmp, &mut self.in_play);
        let (kept, mut pile) = split_by_tag(tmp, w);
        self.in_play = kept;
        let count_w = pile.len();
        proof {
            lemma_count_tagged_bounds(pre.in_play@, w as int);
            vstd::arithmetic::mul::lemma_mul_nonnegative(
                pre.quota as int,
                pre.elected@.len() as int,
            );
            assert(count_w <= pre.valid);
        }
        self.status[w] = CandStatus::Elected;
        proof {
            lemma_count_live_update(pre.status@, w as int, CandStatus::Elected);
            assert(pre.status@.update(w as int, CandStatus::Elected) =~= self.status@);
        }
        let ghost elected0 = self.elected@;
        self.elected.push((w, count_w));
        proof {
            assert(self.elected@[elected0.len() as int] == (w, count_w));
            assert(forall|i: int| 0 <= i < elected0.len() ==> self.elected@[i] == elected0[i]);
            vstd::arithmetic::mul::lemma_mul_is_distributive_add(
                pre.quota as int,
                elected0.len() as int,
                1,
            );
            assert(pre.quota * self.elected@.len() == pre.quota * elected0.len() + pre.quota);
            lemma_droop_seat_bound(
                pre.valid as int,
                pre.seats as int,
                pre.quota as int,
                self.elected@.len() as int,
            );
        }
        let ghost mid = *self;
        let ghost pile0ms = pile@.to_multiset();
        let ghost mut drawn: Multiset<Vec<usize>> = Multiset::empty();
        proof {
            broadcast use vstd::seq_lib::group_to_multiset_ensures;
            broadcast use vstd::multiset::group_multiset_axioms;

            assert(pending0.to_multiset().add(drawn) =~= pending0.to_multiset());
            assert(drawn.add(pile@.to_multiset()) =~= pile0ms);
        }
        let surplus = count_w - self.quota;
        let mut k: usize = 0;
        while k < surplus
            invariant
                0 <= k <= surplus,
                surplus == count_w - mid.quota,
                mid.quota <= count_w,
                pile@.len() == count_w - k,
                pending@.len() == pending0.len() + k,
                pending@.to_multiset() == pending0.to_multiset().add(drawn),
                drawn.add(pile@.to_multiset()) == pile0ms,
                drawn.len() == k,
                forall|i: int|
                    0 <= i < pile@.len() ==> ballot_ok(mid.n as int, #[trigger] pile@[i]@),
                forall|i: int|
                    0 <= i < pending@.len() ==> ballot_ok(mid.n as int, #[trigger] pending@[i]@),
                self.n == mid.n,
                self.seats == mid.seats,
                self.quota == mid.quota,
                self.valid == mid.valid,
                self.rounds == mid.rounds,
                self.exhausted == mid.exhausted,
                self.status == mid.status,
                self.elected == mid.elected,
                self.eliminated == mid.eliminated,
                self.in_play == mid.in_play,
            decreases surplus - k,
        {
            let j = self.rng.next_below(pile.len());
            let ghost old_pile = pile@;
            let ghost old_pending = pending@;
            let ghost old_drawn = drawn;
            let b = pile.remove(j);
            proof {
                assert(forall|i: int|
                    0 <= i < pile@.len() ==> pile@[i] == old_pile[if i < j {
                        i
                    } else {
                        i + 1
                    }]);
            }
            pending.push(b);
            proof {
                drawn = drawn.insert(b);
                broadcast use vstd::seq_lib::group_to_multiset_ensures;
                broadcast use vstd::multiset::group_multiset_axioms;

                assert(old_pile.contains(b));
                assert(old_pile.to_multiset().count(b) >= 1);
                assert(pile@.to_multiset() =~= old_pile.to_multiset().remove(b));
                assert(pending@.to_multiset() =~= old_pending.to_multiset().insert(b));
                assert(pending0.to_multiset().add(old_drawn).insert(b) =~= pending0.to_multiset()
                    .add(drawn));
                assert(drawn.add(pile@.to_multiset()) =~= old_drawn.add(old_pile.to_multiset()));
            }
            k = k + 1;
        }
        proof {
            broadcast use vstd::multiset::group_multiset_axioms;

            assert forall|x: Vec<usize>| drawn.count(x) <= pile0ms.count(x) by {
                assert(pile0ms.count(x) == drawn.count(x) + pile@.to_multiset().count(x));
            };
            assert(drawn.subset_of(pile0ms));
            assert(pending@.to_multiset() == pending0.to_multiset().add(drawn)
                && drawn.subset_of(pile_multiset(old(self).in_play@, w as int)) && drawn.len()
                == count_tagged(old(self).in_play@, w as int) - old(self).quota);
        }
    }

    /// Eliminates candidate `c`: freezes its pile size and returns the whole
    /// pile for redistribution.
    pub fn eliminate_one(&mut self, c: usize) -> (pending: Vec<Vec<usize>>)
        requires
            old(self).inv(),
            c < old(self).n,
            old(self).status@[c as int] == CandStatus::Live,
            count_tagged(old(self).in_play@, c as int) < old(self).quota,
        ensures
            final(self).inv_pending(pending@.len() as int),
            forall|i: int|
                0 <= i < pending@.len() ==> ballot_ok(final(self).n as int, #[trigger] pending@[i]@),
            final(self).n == old(self).n,
            final(self).seats == old(self).seats,
            final(self).quota == old(self).quota,
            final(self).valid == old(self).valid,
            final(self).rounds == old(self).rounds,
            final(self).elected == old(self).elected,
            final(self).eliminated@ == old(self).eliminated@.push(
                (c, count_tagged(old(self).in_play@, c as int) as usize),
            ),
            pending@.to_multiset() == pile_multiset(old(self).in_play@, c as int),
            count_live(final(self).status@) == count_live(old(self).status@) - 1,
    {
        let ghost pre = *self;
        let mut tmp: Vec<(usize, Vec<usize>)> = Vec::new();
        core::mem::swap(&mut tmp, &mut self.in_play);
        let (kept, pile) = split_by_tag(tmp, c);
        self.in_play = kept;
        let cnt = pile.len();
        proof {
            lemma_count_tagged_bounds(pre.in_play@, c as int);
            vstd::arithmetic::mul::lemma_mul_nonnegative(
                pre.quota as int,
                pre.elected@.len() as int,
            );
        }
        self.status[c] = CandStatus::Eliminated;
        proof {
            lemma_count_live_update(pre.status@, c as int, CandStatus::Eliminated);
            assert(pre.status@.update(c as int, CandStatus::Eliminated) =~= self.status@);
        }
        let ghost eliminated0 = self.eliminated@;
        self.eliminated.push((c, cnt));
        proof {
            assert(self.eliminated@[eliminated0.len() as int] == (c, cnt));
            assert(forall|i: int|
                0 <= i < eliminated0.len() ==> self.eliminated@[i] == eliminated0[i]);
        }
        pile
    }

    /// Elects every round winner simultaneously, gathering all their surplus
    /// ballots for one redistribution.
    pub fn elect_all(&mut self, winners: &Vec<usize>) -> (pending: Vec<Vec<usize>>)
        requires
            old(self).inv(),
            forall|i: int|
                0 <= i < winners@.len() ==> (#[trigger] winners@[i]) < old(self).n && old(
                    self,
                ).status@[winners@[i] as int] == CandStatus::Live && count_tagged(
                    old(self).in_play@,
                    winners@[i] as int,
                ) >= old(self).quota,
            forall|i: int, j: int| 0 <= i < j < winners@.len() ==> winners@[i] != winners@[j],
        ensures
            final(self).inv_pending(pending@.len() as int),
            forall|i: int|
                0 <= i < pending@.len() ==> ballot_ok(final(self).n as int, #[trigger] pending@[i]@),
            final(self).n == old(self).n,
            final(self).seats == old(self).seats,
            final(self).quota == old(self).quota,
            final(self).valid == old(self).valid,
            final(self).rounds == old(self).rounds,
            final(self).eliminated == old(self).eliminated,
            final(self).elected@.len() == old(self).elected@.len() + winners@.len(),
            forall|j: int|
                0 <= j < old(self).elected@.len() ==> final(self).elected@[j] == old(
                    self,
                ).elected@[j],
            forall|t: int|
                0 <= t < winners@.len() ==> final(self).elected@.contains(
                    (winners@[t], count_tagged(old(self).in_play@, winners@[t] as int) as usize),
                ),
            count_live(final(self).status@) == count_live(old(self).status@) - winners@.len(),
    {
        let mut pending: Vec<Vec<usize>> = Vec::new();
        let mut k: usize = 0;
        while k < winners.len()
            invariant
                0 <= k <= winners@.len(),
                self.inv_pending(pending@.len() as int),
                forall|i: int|
                    0 <= i < pending@.len() ==> ballot_ok(self.n as int, #[trigger] pending@[i]@),
                self.n == old(self).n,
                self.seats == old(self).seats,
                self.quota == old(self).quota,
                self.valid == old(self).valid,
                self.rounds == old(self).rounds,
                self.eliminated == old(self).eliminated,
                self.elected@.len() == old(self).elected@.len() + k,
                forall|j: int|
                    0 <= j < old(self).elected@.len() ==> self.elected@[j] == old(
                        self,
                    ).elected@[j],
                forall|t: int|
                    0 <= t < k ==> self.elected@.contains(
                        (
                            winners@[t],
                            count_tagged(old(self).in_play@, winners@[t] as int) as usize,
                        ),
                    ),
                self.status@.len() == self.n,
                count_live(self.status@) == count_live(old(self).status@) - k,
                forall|i: int|
                    0 <= i < winners@.len() ==> (#[trigger] winners@[i]) < self.n,
                forall|i: int, j: int| 0 <= i < j < winners@.len() ==> winners@[i] != winners@[j],
                forall|i: int|
                    k <= i < winners@.len() ==> self.status@[(#[trigger] winners@[i]) as int]
                        == CandStatus::Live && count_tagged(self.in_play@, winners@[i] as int)
                        == count_tagged(old(self).in_play@, winners@[i] as int) && count_tagged(
                        old(self).in_play@,
                        winners@[i] as int,
                    ) >= self.quota,
            decreases winners@.len() - k,
        {
            let w = winners[k];
            let ghost before = *self;
            self.elect_one(w, &mut pending);
            proof {
                assert(self.elected@ == before.elected@.push(
                    (w, count_tagged(before.in_play@, w as int) as usize),
                ));
                assert forall|t: int|
                    0 <= t < k + 1 implies self.elected@.contains(
                    (winners@[t], count_tagged(old(self).in_play@, winners@[t] as int) as usize),
                ) by {
                    let pair = (
                        winners@[t],
                        count_tagged(old(self).in_play@, winners@[t] as int) as usize,
                    );
                    if t < k {
                        assert(before.elected@.contains(pair));
                        let idx = choose|idx: int|
                            0 <= idx < before.elected@.len() && before.elected@[idx] == pair;
                        assert(self.elected@[idx] == pair);
                    } else {
                        assert(self.elected@[self.elected@.len() - 1] == pair);
                    }
                };
            }
            k = k + 1;
        }
        pending
    }
}

/// The assembled outcome of one run of the round executor.
pub struct EngineResult {
    /// Winners in decision order, each with its pile size at win time.
    pub elected: Vec<(usize, usize)>,
    /// Losers in decision order, each with its pile size at loss time.
    pub eliminated: Vec<(usize, usize)>,
    /// The Droop quota the run was counted against.
    pub quota: usize,
    /// Ballots whose preferences ran out during a transfer.
    pub exhausted: usize,
    /// Ballots still sitting on live piles when the run halted.
    pub leftover: usize,
    /// Rounds the run took.
    pub rounds: usize,
}

pub proof fn lemma_count_live_full(s: Seq<CandStatus>)
    requires
        forall|i: int| 0 <= i < s.len() ==> s[i] == CandStatus::Live,
    ensures
        count_live(s) == s.len(),
    decreases s.len(),
{
    if s.len() > 0 {
        lemma_count_live_full(s.drop_last());
    }
}

/// Every candidate whose first-preference pile reaches the quota stands in
/// `elected`, with exactly that pile size frozen: such candidates win in
/// the first round, before any random draw can move a ballot.
pub open spec fn first_round_winners_elected(
    balls: Seq<Vec<usize>>,
    n: int,
    quota: int,
    elected: Seq<(usize, usize)>,
) -> bool {
    forall|c: int|
        0 <= c < n && first_pref_count(balls, c) >= quota ==> elected.contains(
            (c as usize, first_pref_count(balls, c) as usize),
        )
}

/// The engine as it stands before its first round: nothing decided, every
/// candidate live, and each pile holding exactly its first preferences.
spec fn pre_first_round(eng: Engine, balls: Seq<Vec<usize>>) -> bool {
    &&& eng.rounds == 0
    &&& eng.elected@.len() == 0
    &&& forall|c: int| 0 <= c < eng.status@.len() ==> eng.status@[c] == CandStatus::Live
    &&& forall|c: int| count_tagged(eng.in_play@, c) == first_pref_count(balls, c)
}

/// Runs the whole tally over index ballots: repeated rounds of simultaneous
/// quota wins with random surplus transfer, or elimination of the smallest
/// pile, until every seat is filled or no live candidate remains.
pub fn run_election(n: usize, seats: usize, ballots: Vec<Vec<usize>>, seed: u64) -> (r:
    EngineResult)
    requires
        n >= 1,
        seats >= 1,
        forall|i: int| 0 <= i < ballots@.len() ==> ballot_ok(n as int, #[trigger] ballots@[i]@),
    ensures
        r.quota == spec_droop_quota(ballots@.len() as int, seats as int),
        r.elected@.len() <= seats,
        r.elected@.len() == seats || r.elected@.len() + r.eliminated@.len() == n,
        r.elected@.len() + r.eliminated@.len() <= n,
        r.quota * r.elected@.len() + r.exhausted + r.leftover == ballots@.len(),
        forall|i: int|
            0 <= i < r.elected@.len() ==> (#[trigger] r.elected@[i]).0 < n && r.quota
                <= r.elected@[i].1 <= ballots@.len(),
        forall|i: int|
            0 <= i < r.eliminated@.len() ==> (#[trigger] r.eliminated@[i]).0 < n
                && r.eliminated@[i].1 < r.quota && r.eliminated@[i].1 <= ballots@.len(),
        distinct_firsts(r.elected@),
        distinct_firsts(r.eliminated@),
        forall|i: int, j: int|
            0 <= i < r.elected@.len() && 0 <= j < r.eliminated@.len() ==> (
            #[trigger] r.elected@[i]).0 != (#[trigger] r.eliminated@[j]).0,
        r.rounds <= n,
        first_round_winners_elected(ballots@, n as int, r.quota as int, r.elected@),
{
    let valid = ballots.len();
    let quota = crate::droop_quota(valid, seats);
    let mut eng = Engine {
        n,
        seats,
        quota,
        valid,
        status: vec![CandStatus::Live; n],
        in_play: Vec::new(),
        elected: Vec::new(),
        eliminated: Vec::new(),
        exhausted: 0,
        rounds: 0,
        rng: Lcg::new(seed),
    };
    let ghost balls = ballots@;
    let ghost status0 = eng.status@;
    proof {
        assert(forall|i: int| 0 <= i < n ==> eng.status@[i] == CandStatus::Live);
        lemma_count_live_full(eng.status@);
        vstd::arithmetic::mul::lemma_mul_basics(eng.quota as int);
        assert(eng.inv_pending(ballots@.len() as int));
    }
    eng.settle(ballots);
    proof {
        assert forall|c: int| count_tagged(eng.in_play@, c) == first_pref_count(balls, c) by {
            lemma_count_assigned_all_live(status0, balls, c);
        };
        assert(pre_first_round(eng, balls));
    }
    while eng.elected.len() < eng.seats
        invariant
            eng.inv(),
            eng.n == n,
            eng.seats == seats,
            eng.quota == quota,
            eng.valid == valid,
            pre_first_round(eng, balls) || first_round_winners_elected(
                balls,
                n as int,
                quota as int,
                eng.elected@,
            ),
        ensures
            eng.inv(),
            eng.n == n && eng.seats == seats && eng.quota == quota && eng.valid == valid,
            eng.elected@.len() == seats || count_live(eng.status@) == 0,
            first_round_winners_elected(balls, n as int, quota as int, eng.elected@),
        decreases count_live(eng.status@),
    {
        let ghost pre_round = eng;
        proof {
            lemma_count_live_bounds(eng.status@);
        }
        let winners = eng.round_winners();
        if winners.len() > 0 {
            let pending = eng.elect_all(&winners);
            let ghost mid = eng;
            eng.settle(pending);
            proof {
                assert(eng.elected == mid.elected);
                if pre_first_round(pre_round, balls) {
                    assert forall|c2: int|
                        0 <= c2 < n && first_pref_count(balls, c2) >= quota implies eng.elected@
                        .contains((c2 as usize, first_pref_count(balls, c2) as usize)) by {
                        assert(pre_round.status@[c2] == CandStatus::Live);
                        assert(count_tagged(pre_round.in_play@, c2) == first_pref_count(
                            balls,
                            c2,
                        ));
                        assert(winners@.contains(c2 as usize));
                        let t = choose|t: int|
                            0 <= t < winners@.len() && winners@[t] == c2 as usize;
                        assert(mid.elected@.contains(
                            (
                                winners@[t],
                                count_tagged(pre_round.in_play@, winners@[t] as int) as usize,
                            ),
                        ));
                    };
                } else {
                    assert forall|c2: int|
                        0 <= c2 < n && first_pref_count(balls, c2) >= quota implies eng.elected@
                        .contains((c2 as usize, first_pref_count(balls, c2) as usize)) by {
                        let pair = (c2 as usize, first_pref_count(balls, c2) as usize);
                        assert(pre_round.elected@.contains(pair));
                        let idx = choose|idx: int|
                            0 <= idx < pre_round.elected@.len() && pre_round.elected@[idx] == pair;
                        assert(eng.elected@[idx] == pair);
                    };
                }
                assert(first_round_winners_elected(balls, n as int, quota as int, eng.elected@));
            }
        } else {
            match eng.smallest_live() {
                None => {
                    proof {
                        lemma_count_live_zero(eng.status@);
                        if pre_first_round(pre_round, balls) {
                            assert(eng.status@[0] == CandStatus::Live);
                            assert(false);
                        }
                        assert(first_round_winners_elected(
                            balls,
                            n as int,
                            quota as int,
                            eng.elected@,
                        ));
                    }
                    break ;
                }
                Some(c) => {
                    let pending = eng.eliminate_one(c);
                    eng.settle(pending);
                    proof {
                        if pre_first_round(pre_round, balls) {
                            assert forall|c2: int|
                                0 <= c2 < n && first_pref_count(balls, c2) >= quota implies eng
                                .elected@.contains(
                                (c2 as usize, first_pref_count(balls, c2) as usize),
                            ) by {
                                assert(pre_round.status@[c2] == CandStatus::Live);
                                assert(count_tagged(pre_round.in_play@, c2) >= quota);
                                assert(winners@.contains(c2 as usize));
                                assert(false);
                            };
                        } else {
                            assert forall|c2: int|
                                0 <= c2 < n && first_pref_count(balls, c2) >= quota implies eng
                                .elected@.contains(
                                (c2 as usize, first_pref_count(balls, c2) as usize),
                            ) by {
                                let pair = (c2 as usize, first_pref_count(balls, c2) as usize);
                                assert(pre_round.elected@.contains(pair));
                                let idx = choose|idx: int|
                                    0 <= idx < pre_round.elected@.len() && pre_round.elected@[idx]
                                        == pair;
                                assert(eng.elected@[idx] == pair);
                            };
                        }
                        assert(first_round_winners_elected(
                            balls,
                            n as int,
                            quota as int,
                            eng.elected@,
                        ));
                    }
                }
            }
        }
        proof {
            lemma_count_live_bounds(eng.status@);
        }
        eng.rounds = eng.rounds + 1;
    }
    proof {
        lemma_count_live_bounds(eng.status@);
        assert forall|i: int, j: int|
            0 <= i < eng.elected@.len() && 0 <= j < eng.eliminated@.len() implies (
        #[trigger] eng.elected@[i]).0 != (#[trigger] eng.eliminated@[j]).0 by {
            assert(eng.status@[eng.elected@[i].0 as int] == CandStatus::Elected);
            assert(eng.status@[eng.eliminated@[j].0 as int] == CandStatus::Eliminated);
        };
    }
    let leftover = eng.in_play.len();
    EngineResult {
        elected: eng.elected,
        eliminated: eng.eliminated,
        quota: eng.quota,
        exhausted: eng.exhausted,
        leftover,
        rounds: eng.rounds,
    }
}

} // verus!
