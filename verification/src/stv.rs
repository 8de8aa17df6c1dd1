//! The string-facing election interface: ballot preparation (the
//! spoiled-ballot purge), the tally entry points, and winner ordering.

use crate::engine;
use crate::engine::ballot_ok;
use crate::spec_droop_quota;
use vstd::multiset::Multiset;
use vstd::prelude::*;

verus! {

/// `name` names one of the candidates.
pub open spec fn name_known(cands: Seq<String>, name: Seq<char>) -> bool {
    exists|j: int| 0 <= j < cands.len() && cands[j]@ == name
}

/// Every entry of the ballot names a known candidate: validity is
/// whole-ballot, not prefix-only.
pub open spec fn spec_ballot_valid(cands: Seq<String>, b: Seq<String>) -> bool {
    forall|i: int| 0 <= i < b.len() ==> name_known(cands, b[i]@)
}

/// The ballots that survive the spoiled-ballot purge, in submission order.
pub open spec fn spec_purge(cands: Seq<String>, votes: Seq<Vec<String>>) -> Seq<Vec<String>>
    decreases votes.len(),
{
    if votes.len() == 0 {
        Seq::empty()
    } else {
        let rest = spec_purge(cands, votes.drop_last());
        if spec_ballot_valid(cands, votes.last()@) {
            rest.push(votes.last())
        } else {
            rest
        }
    }
}

/// How many ballots survive the purge.
pub open spec fn count_valid(cands: Seq<String>, votes: Seq<Vec<String>>) -> int {
    spec_purge(cands, votes).len() as int
}

pub proof fn lemma_count_valid_bounds(cands: Seq<String>, votes: Seq<Vec<String>>)
    ensures
        0 <= count_valid(cands, votes) <= votes.len(),
    decreases votes.len(),
{
    if votes.len() > 0 {
        lemma_count_valid_bounds(cands, votes.drop_last());
    }
}

/// Everything the purge keeps is a valid ballot of the input list.
pub proof fn lemma_purge_all_valid(cands: Seq<String>, votes: Seq<Vec<String>>)
    ensures
        forall|i: int|
            0 <= i < spec_purge(cands, votes).len() ==> spec_ballot_valid(
                cands,
                (#[trigger] spec_purge(cands, votes)[i])@,
            ),
    decreases votes.len(),
{
    if votes.len() > 0 {
        lemma_purge_all_valid(cands, votes.drop_last());
        let rest = spec_purge(cands, votes.drop_last());
        let all = spec_purge(cands, votes);
        if spec_ballot_valid(cands, votes.last()@) {
            assert forall|i: int| 0 <= i < all.len() implies spec_ballot_valid(
                cands,
                (#[trigger] all[i])@,
            ) by {
                if i < rest.len() {
                    assert(all[i] == rest[i]);
                } else {
                    assert(all[i] == votes.last());
                }
            };
        }
    }
}

/// Purging a list of valid ballots keeps all of them, unchanged.
pub proof fn lemma_purge_of_valid_is_identity(cands: Seq<String>, votes: Seq<Vec<String>>)
    requires
        forall|i: int| 0 <= i < votes.len() ==> spec_ballot_valid(cands, (#[trigger] votes[i])@),
    ensures
        spec_purge(cands, votes) == votes,
    decreases votes.len(),
{
    if votes.len() == 0 {
        assert(spec_purge(cands, votes) =~= votes);
    } else {
        lemma_purge_of_valid_is_identity(cands, votes.drop_last());
        assert(spec_purge(cands, votes) =~= votes.drop_last().push(votes.last()));
        assert(votes.drop_last().push(votes.last()) =~= votes);
    }
}

/// Purging is idempotent: a second pass over an already-purged ballot list
/// keeps every ballot and spoils none.
pub proof fn lemma_purge_idempotent(cands: Seq<String>, votes: Seq<Vec<String>>)
    ensures
        spec_purge(cands, spec_purge(cands, votes)) == spec_purge(cands, votes),
        count_valid(cands, spec_purge(cands, votes)) == spec_purge(cands, votes).len(),
{
    lemma_purge_all_valid(cands, votes);
    lemma_purge_of_valid_is_identity(cands, spec_purge(cands, votes));
}

/// Looks a name up in the candidate list.
fn find_candidate(cands: &Vec<String>, name: &String) -> (r: Option<usize>)
    ensures
        match r {
            Some(j) => j < cands@.len() && cands@[j as int]@ == name@,
            None => !name_known(cands@, name@),
        },
{
    let n = cands.len();
    let mut j: usize = 0;
    while j < n
        invariant
            n == cands@.len(),
            0 <= j <= n,
            forall|i: int| 0 <= i < j ==> cands@[i]@ != name@,
        decreases n - j,
    {
        if cands[j].eq(name) {
            return Some(j);
        }
        j = j + 1;
    }
    None
}

/// Checks one ballot against the candidate list.
pub fn ballot_valid(cands: &Vec<String>, ballot: &Vec<String>) -> (r: bool)
    ensures
        r == spec_ballot_valid(cands@, ballot@),
{
    let m = ballot.len();
    let mut i: usize = 0;
    while i < m
        invariant
            m == ballot@.len(),
            0 <= i <= m,
            forall|k: int| 0 <= k < i ==> name_known(cands@, ballot@[k]@),
        decreases m - i,
    {
        match find_candidate(cands, &ballot[i]) {
            Some(_) => {}
            None => {
                return false;
            }
        }
        i = i + 1;
    }
    true
}

/// Ballot preparation: discards every ballot in which any entry names an
/// unknown candidate, and reports how many were discarded.
pub fn purge_ballots(candidates: &Vec<String>, votes: Vec<Vec<String>>) -> (r: (
    Vec<Vec<String>>,
    usize,
))
    ensures
        r.0@ == spec_purge(candidates@, votes@),
        r.0@.len() + r.1 == votes@.len(),
{
    let ghost orig = votes@;
    let mut votes = votes;
    let total = votes.len();
    let mut kept: Vec<Vec<String>> = Vec::new();
    let mut i: usize = 0;
    proof {
        assert(orig.take(0) =~= Seq::<Vec<String>>::empty());
        assert(orig.skip(0) =~= orig);
    }
    while i < total
        invariant
            total == orig.len(),
            0 <= i <= total,
            votes@ == orig.skip(i as int),
            kept@ == spec_purge(candidates@, orig.take(i as int)),
            kept@.len() <= i,
        decreases total - i,
    {
        let ghost prefix = orig.take(i as int);
        let ghost next = orig.take(i as int + 1);
        let b = votes.remove(0);
        proof {
            assert(next.drop_last() =~= prefix);
            assert(next.last() == orig[i as int]);
            assert(b == orig.skip(i as int)[0]);
            assert(orig.skip(i as int).remove(0) =~= orig.skip(i as int + 1));
        }
        if ballot_valid(candidates, &b) {
            kept.push(b);
        }
        i = i + 1;
    }
    proof {
        assert(orig.take(total as int) =~= orig);
        lemma_count_valid_bounds(candidates@, orig);
    }
    let spoiled = total - kept.len();
    (kept, spoiled)
}

/// No two candidates share a name.
pub open spec fn distinct_names(cands: Seq<String>) -> bool {
    forall|i: int, j: int| 0 <= i < j < cands.len() ==> cands[i]@ != cands[j]@
}

/// How many of these ballots put candidate `j`'s name first.
pub open spec fn count_first_pref_names(
    cands: Seq<String>,
    votes: Seq<Vec<String>>,
    j: int,
) -> int
    decreases votes.len(),
{
    if votes.len() == 0 {
        0
    } else {
        count_first_pref_names(cands, votes.drop_last(), j) + if votes.last()@.len() > 0
            && votes.last()@[0]@ == cands[j]@ {
            1int
        } else {
            0int
        }
    }
}

/// `ib` is `b` written in candidate indices, entry for entry.
spec fn indexed_ballot_of(cands: Seq<String>, ib: Vec<usize>, b: Vec<String>) -> bool {
    &&& ib@.len() == b@.len()
    &&& forall|m: int|
        0 <= m < ib@.len() ==> (#[trigger] ib@[m]) < cands.len() && cands[ib@[m] as int]@
            == b@[m]@
}

/// With distinct candidate names, index ballots put candidate `j` first
/// exactly as often as their originals put `j`'s name first.
proof fn lemma_first_pref_counts_match(
    cands: Seq<String>,
    ibs: Seq<Vec<usize>>,
    bs: Seq<Vec<String>>,
    j: int,
)
    requires
        distinct_names(cands),
        0 <= j < cands.len(),
        ibs.len() == bs.len(),
        forall|k: int| 0 <= k < ibs.len() ==> indexed_ballot_of(cands, #[trigger] ibs[k], bs[k]),
    ensures
        engine::first_pref_count(ibs, j) == count_first_pref_names(cands, bs, j),
    decreases ibs.len(),
{
    if ibs.len() > 0 {
        lemma_first_pref_counts_match(cands, ibs.drop_last(), bs.drop_last(), j);
        let ib = ibs.last();
        let b = bs.last();
        assert(indexed_ballot_of(cands, ib, b));
        if b@.len() > 0 && b@[0]@ == cands[j]@ {
            if ib@[0] != j {
                let m = ib@[0] as int;
                assert(cands[m]@ == cands[j]@);
                if m < j {
                    assert(cands[m]@ != cands[j]@);
                } else {
                    assert(cands[j]@ != cands[m]@);
                }
                assert(false);
            }
        }
    }
}

/// Translates one ballot to candidate indices; `None` marks it spoiled.
fn to_index_ballot(cands: &Vec<String>, ballot: &Vec<String>) -> (r: Option<Vec<usize>>)
    ensures
        match r {
            Some(ib) => spec_ballot_valid(cands@, ballot@) && ib@.len() == ballot@.len()
                && ballot_ok(cands@.len() as int, ib@) && forall|i: int|
                0 <= i < ib@.len() ==> cands@[(#[trigger] ib@[i]) as int]@ == ballot@[i]@,
            None => !spec_ballot_valid(cands@, ballot@),
        },
{
    let m = ballot.len();
    let mut ib: Vec<usize> = Vec::new();
    let mut i: usize = 0;
    while i < m
        invariant
            m == ballot@.len(),
            0 <= i <= m,
            ib@.len() == i,
            forall|k: int| 0 <= k < i ==> (#[trigger] ib@[k]) < cands@.len(),
            forall|k: int| 0 <= k < i ==> cands@[(#[trigger] ib@[k]) as int]@ == ballot@[k]@,
        decreases m - i,
    {
        match find_candidate(cands, &ballot[i]) {
            Some(j) => {
                ib.push(j);
            }
            None => {
                return None;
            }
        }
        i = i + 1;
    }
    proof {
        assert forall|k: int| 0 <= k < ballot@.len() implies name_known(
            cands@,
            (#[trigger] ballot@[k])@,
        ) by {
            assert(cands@[ib@[k] as int]@ == ballot@[k]@);
        };
    }
    Some(ib)
}

/// The outcome of one tally run.
pub struct ElectionResult {
    /// Winners in decision order, each with its pile size at win time.
    pub elected: Vec<(String, usize)>,
    /// Losers in decision order, each with its pile size at loss time.
    pub eliminated: Vec<(String, usize)>,
    /// Ballots discarded before round one because an entry named an unknown
    /// candidate.
    pub spoiled_count: usize,
    /// The Droop quota the run was counted against.
    pub quota: usize,
    /// Ballots whose preferences ran out during a transfer.
    pub exhausted_count: usize,
    /// Ballots still sitting on live piles when the run halted early.
    pub leftover_count: usize,
    /// Rounds the run took.
    pub rounds: usize,
}

/// Gives each decided candidate index its name back.
fn attach_names(cands: &Vec<String>, entries: &Vec<(usize, usize)>) -> (r: Vec<(String, usize)>)
    requires
        forall|i: int| 0 <= i < entries@.len() ==> (#[trigger] entries@[i]).0 < cands@.len(),
    ensures
        r@.len() == entries@.len(),
        forall|i: int|
            0 <= i < entries@.len() ==> (#[trigger] r@[i]).0 == cands@[entries@[i].0 as int]
                && r@[i].1 == entries@[i].1,
{
    let m = entries.len();
    let mut r: Vec<(String, usize)> = Vec::new();
    let mut i: usize = 0;
    while i < m
        invariant
            m == entries@.len(),
            0 <= i <= m,
            r@.len() == i,
            forall|k: int| 0 <= k < entries@.len() ==> (#[trigger] entries@[k]).0 < cands@.len(),
            forall|k: int|
                0 <= k < i ==> (#[trigger] r@[k]).0 == cands@[entries@[k].0 as int] && r@[k].1
                    == entries@[k].1,
        decreases m - i,
    {
        let idx = entries[i].0;
        let cnt = entries[i].1;
        r.push((cands[idx].clone(), cnt));
        i = i + 1;
    }
    r
}

/// Counts sit in descending order.
pub open spec fn sorted_desc(s: Seq<(String, usize)>) -> bool {
    forall|i: int, j: int| 0 <= i <= j < s.len() ==> s[i].1 >= s[j].1
}

/// One tally request: a snapshot of the candidates, the submitted ballots,
/// and the seat target.
pub struct Election {
    pub candidates: Vec<String>,
    pub votes: Vec<Vec<String>>,
    pub seats: usize,
}

impl Election {
    /// The caller-enforced preconditions: at least one seat, a non-empty
    /// candidate set, and no duplicate candidate names.
    pub open spec fn wf(self) -> bool {
        &&& self.seats >= 1
        &&& self.candidates@.len() >= 1
        &&& distinct_names(self.candidates@)
    }

    /// What every run of the tally guarantees about its outcome, whatever
    /// the random surplus draw did.
    pub open spec fn valid_result(self, r: ElectionResult) -> bool {
        let valid = count_valid(self.candidates@, self.votes@);
        &&& r.spoiled_count + valid == self.votes@.len()
        &&& r.quota == spec_droop_quota(valid, self.seats as int)
        &&& r.elected@.len() <= self.seats
        &&& (r.elected@.len() == self.seats || r.elected@.len() + r.eliminated@.len()
            == self.candidates@.len())
        &&& r.elected@.len() + r.eliminated@.len() <= self.candidates@.len()
        &&& r.spoiled_count + r.quota * r.elected@.len() + r.exhausted_count + r.leftover_count
            == self.votes@.len()
        &&& forall|i: int|
            0 <= i < r.elected@.len() ==> name_known(self.candidates@, (#[trigger] r.elected@[i]).0@)
                && r.quota <= r.elected@[i].1 <= valid
        &&& forall|i: int|
            0 <= i < r.eliminated@.len() ==> name_known(
                self.candidates@,
                (#[trigger] r.eliminated@[i]).0@,
            ) && r.eliminated@[i].1 < r.quota
        &&& forall|i: int, j: int|
            0 <= i < j < r.elected@.len() ==> (#[trigger] r.elected@[i]).0@ != (
            #[trigger] r.elected@[j]).0@
        &&& forall|i: int, j: int|
            0 <= i < j < r.eliminated@.len() ==> (#[trigger] r.eliminated@[i]).0@ != (
            #[trigger] r.eliminated@[j]).0@
        &&& forall|i: int, j: int|
            0 <= i < r.elected@.len() && 0 <= j < r.eliminated@.len() ==> (
            #[trigger] r.elected@[i]).0@ != (#[trigger] r.eliminated@[j]).0@
        &&& r.rounds <= self.candidates@.len()
        &&& forall|j: int|
            0 <= j < self.candidates@.len() && count_first_pref_names(
                self.candidates@,
                spec_purge(self.candidates@, self.votes@),
                j,
            ) >= r.quota ==> r.elected@.contains(
                (
                    self.candidates@[j],
                    count_first_pref_names(
                        self.candidates@,
                        spec_purge(self.candidates@, self.votes@),
                        j,
                    ) as usize,
                ),
            )
    }

    pub fn new(candidates: Vec<String>, votes: Vec<Vec<String>>, seats: usize) -> (r: Election)
        ensures
            r.candidates == candidates,
            r.votes == votes,
            r.seats == seats,
    {
        Election { candidates, votes, seats }
    }

    /// Runs the tally with the surplus draw replayable from `seed`.
    pub fn results_seeded(&self, seed: u64) -> (r: ElectionResult)
        requires
            self.wf(),
        ensures
            self.valid_result(r),
    {
        let n = self.candidates.len();
        let total = self.votes.len();
        let mut index_ballots: Vec<Vec<usize>> = Vec::new();
        let mut i: usize = 0;
        proof {
            assert(self.votes@.take(0) =~= Seq::<Vec<String>>::empty());
        }
        while i < total
            invariant
                total == self.votes@.len(),
                0 <= i <= total,
                n == self.candidates@.len(),
                index_ballots@.len() == count_valid(self.candidates@, self.votes@.take(i as int)),
                index_ballots@.len() <= i,
                forall|k: int|
                    0 <= k < index_ballots@.len() ==> ballot_ok(
                        n as int,
                        (#[trigger] index_ballots@[k])@,
                    ),
                forall|k: int|
                    0 <= k < index_ballots@.len() ==> indexed_ballot_of(
                        self.candidates@,
                        #[trigger] index_ballots@[k],
                        spec_purge(self.candidates@, self.votes@.take(i as int))[k],
                    ),
            decreases total - i,
        {
            let ghost prefix = self.votes@.take(i as int);
            let ghost next = self.votes@.take(i as int + 1);
            proof {
                assert(next.drop_last() =~= prefix);
                assert(next.last() == self.votes@[i as int]);
            }
            let ghost old_ibs = index_ballots@;
            match to_index_ballot(&self.candidates, &self.votes[i]) {
                Some(ib) => {
                    proof {
                        assert(indexed_ballot_of(self.candidates@, ib, self.votes@[i as int]));
                    }
                    index_ballots.push(ib);
                    proof {
                        let purged_next = spec_purge(self.candidates@, next);
                        let purged_prefix = spec_purge(self.candidates@, prefix);
                        assert(purged_next == purged_prefix.push(self.votes@[i as int]));
                        assert(forall|k: int|
                            0 <= k < old_ibs.len() ==> index_ballots@[k] == old_ibs[k]
                                && purged_next[k] == purged_prefix[k]);
                        assert(index_ballots@.last() == ib);
                        assert(purged_next.last() == self.votes@[i as int]);
                    }
                }
                None => {}
            }
            i = i + 1;
        }
        proof {
            assert(self.votes@.take(total as int) =~= self.votes@);
        }
        let valid_count = index_ballots.len();
        let spoiled_count = total - valid_count;
        let ghost ib_ghost = index_ballots@;
        let ghost purged = spec_purge(self.candidates@, self.votes@);
        let engres = engine::run_election(n, self.seats, index_ballots, seed);
        let elected = attach_names(&self.candidates, &engres.elected);
        let eliminated = attach_names(&self.candidates, &engres.eliminated);
        proof {
            assert forall|a: int, b: int|
                0 <= a < elected@.len() && 0 <= b < elected@.len() && engres.elected@[a].0
                    != engres.elected@[b].0 implies elected@[a].0@ != elected@[b].0@ by {
                let ia = engres.elected@[a].0 as int;
                let ib = engres.elected@[b].0 as int;
                if ia < ib {
                    assert(self.candidates@[ia]@ != self.candidates@[ib]@);
                } else {
                    assert(self.candidates@[ib]@ != self.candidates@[ia]@);
                }
            };
            assert forall|a: int, b: int|
                0 <= a < elected@.len() && 0 <= b < eliminated@.len() implies elected@[a].0@
                    != eliminated@[b].0@ by {
                let ia = engres.elected@[a].0 as int;
                let ib = engres.eliminated@[b].0 as int;
                if ia < ib {
                    assert(self.candidates@[ia]@ != self.candidates@[ib]@);
                } else {
                    assert(self.candidates@[ib]@ != self.candidates@[ia]@);
                }
            };
            assert forall|a: int, b: int|
                0 <= a < eliminated@.len() && 0 <= b < eliminated@.len() && engres.eliminated@[a].0
                    != engres.eliminated@[b].0 implies eliminated@[a].0@ != eliminated@[b].0@ by {
                let ia = engres.eliminated@[a].0 as int;
                let ib = engres.eliminated@[b].0 as int;
                if ia < ib {
                    assert(self.candidates@[ia]@ != self.candidates@[ib]@);
                } else {
                    assert(self.candidates@[ib]@ != self.candidates@[ia]@);
                }
            };
            assert forall|j: int|
                0 <= j < self.candidates@.len() && count_first_pref_names(
                    self.candidates@,
                    purged,
                    j,
                ) >= engres.quota implies elected@.contains(
                (
                    self.candidates@[j],
                    count_first_pref_names(self.candidates@, purged, j) as usize,
                ),
            ) by {
                lemma_first_pref_counts_match(self.candidates@, ib_ghost, purged, j);
                assert(engine::first_pref_count(ib_ghost, j) >= engres.quota);
                assert(engres.elected@.contains(
                    (j as usize, engine::first_pref_count(ib_ghost, j) as usize),
                ));
                let t = choose|t: int|
                    0 <= t < engres.elected@.len() && engres.elected@[t] == (
                    j as usize,
                    engine::first_pref_count(ib_ghost, j) as usize,
                );
                assert(elected@[t] == (
                    self.candidates@[j],
                    count_first_pref_names(self.candidates@, purged, j) as usize,
                ));
            };
        }
        ElectionResult {
            elected,
            eliminated,
            spoiled_count,
            quota: engres.quota,
            exhausted_count: engres.exhausted,
            leftover_count: engres.leftover,
            rounds: engres.rounds,
        }
    }

    /// Runs the tally with a fresh, unreproducible surplus draw.
    pub fn results(&self) -> (r: ElectionResult)
        requires
            self.wf(),
        ensures
            self.valid_result(r),
    {
        let seed = crate::rng::fresh_seed();
        self.results_seeded(seed)
    }

    /// The elected candidates of one run, ranked by descending
    /// decision-time ballot count.
    pub fn winners(&self) -> (r: Vec<(String, usize)>)
        requires
            self.wf(),
        ensures
            exists|run: ElectionResult|
                self.valid_result(run) && r@.to_multiset() == run.elected@.to_multiset(),
            r@.len() <= self.seats,
            sorted_desc(r@),
            forall|i: int| 0 <= i < r@.len() ==> name_known(self.candidates@, (#[trigger] r@[i]).0@),
            forall|i: int, j: int| 0 <= i < j < r@.len() ==> r@[i].0@ != r@[j].0@,
    {
        let res = self.results();
        let ghost run = res;
        let r = sort_by_count_desc(res.elected);
        proof {
            broadcast use vstd::seq_lib::group_to_multiset_ensures;

            assert forall|i: int| 0 <= i < r@.len() implies name_known(
                self.candidates@,
                (#[trigger] r@[i]).0@,
            ) by {
                assert(r@.to_multiset().contains(r@[i]));
                assert(res.elected@.contains(r@[i]));
            };
            assert(self.valid_result(run) && r@.to_multiset() == run.elected@.to_multiset());
        }
        r
    }
}

/// Orders decided candidates by descending ballot count; equal counts keep
/// their relative decision order untouched only as far as the selection
/// scan finds them.
pub fn sort_by_count_desc(items: Vec<(String, usize)>) -> (r: Vec<(String, usize)>)
    ensures
        r@.len() == items@.len(),
        r@.to_multiset() == items@.to_multiset(),
        sorted_desc(r@),
        (forall|i: int, j: int| 0 <= i < j < items@.len() ==> items@[i].0@ != items@[j].0@)
            ==> (forall|i: int, j: int| 0 <= i < j < r@.len() ==> r@[i].0@ != r@[j].0@),
{
    proof {
        broadcast use vstd::seq_lib::group_to_multiset_ensures;

    }
    let ghost dn = forall|i: int, j: int|
        0 <= i < j < items@.len() ==> items@[i].0@ != items@[j].0@;
    let mut rest = items;
    let mut out: Vec<(String, usize)> = Vec::new();
    while rest.len() > 0
        invariant
            out@.len() + rest@.len() == items@.len(),
            out@.to_multiset().add(rest@.to_multiset()) == items@.to_multiset(),
            sorted_desc(out@),
            forall|i: int, j: int|
                0 <= i < out@.len() && 0 <= j < rest@.len() ==> out@[i].1 >= rest@[j].1,
            dn == (forall|i: int, j: int|
                0 <= i < j < items@.len() ==> items@[i].0@ != items@[j].0@),
            dn ==> (forall|i: int, j: int| 0 <= i < j < out@.len() ==> out@[i].0@ != out@[j].0@),
            dn ==> (forall|i: int, j: int| 0 <= i < j < rest@.len() ==> rest@[i].0@ != rest@[j].0@),
            dn ==> (forall|i: int, j: int|
                0 <= i < out@.len() && 0 <= j < rest@.len() ==> out@[i].0@ != rest@[j].0@),
        decreases rest@.len(),
    {
        let mut best: usize = 0;
        let mut k: usize = 1;
        while k < rest.len()
            invariant
                rest@.len() >= 1,
                0 <= best < rest@.len(),
                1 <= k <= rest@.len(),
                forall|d: int| 0 <= d < k ==> rest@[best as int].1 >= rest@[d].1,
            decreases rest@.len() - k,
        {
            if rest[k].1 > rest[best].1 {
                best = k;
            }
            k = k + 1;
        }
        let ghost old_out = out@;
        let ghost old_rest = rest@;
        let e = rest.remove(best);
        out.push(e);
        proof {
            broadcast use vstd::seq_lib::group_to_multiset_ensures;

            assert(forall|i: int|
                0 <= i < rest@.len() ==> rest@[i] == old_rest[if i < best {
                    i
                } else {
                    i + 1
                }]);
            assert(out@.to_multiset() =~= old_out.to_multiset().insert(e));
            assert(rest@.to_multiset() =~= old_rest.to_multiset().remove(e));
            assert(old_rest.to_multiset().contains(e));
            assert(out@.to_multiset().add(rest@.to_multiset()) =~= old_out.to_multiset().add(
                old_rest.to_multiset(),
            ));
        }
    }
    proof {
        broadcast use vstd::seq_lib::group_to_multiset_ensures;

        assert(rest@.to_multiset() =~= Multiset::<(String, usize)>::empty());
        assert(out@.to_multiset().add(rest@.to_multiset()) =~= out@.to_multiset());
    }
    out
}

/// The displayed rank of each winner row, threading the rank counter: the
/// rank number steps up whenever the ballot count drops below the last
/// count that stepped it, so equal counts share one displayed rank.
pub open spec fn spec_rank_rows(ws: Seq<(String, usize)>, curr: usize, last: usize) -> Seq<
    (usize, String, usize),
>
    decreases ws.len(),
{
    if ws.len() == 0 {
        Seq::empty()
    } else {
        let p = ws[0];
        if p.1 < last {
            seq![(((curr + 1) as usize), p.0, p.1)] + spec_rank_rows(
                ws.drop_first(),
                ((curr + 1) as usize),
                p.1,
            )
        } else {
            seq![(curr, p.0, p.1)] + spec_rank_rows(ws.drop_first(), curr, last)
        }
    }
}

/// Numbers the winner rows for display, ties sharing one rank.
pub fn ranked_rows(winners: &Vec<(String, usize)>) -> (r: Vec<(usize, String, usize)>)
    ensures
        r@ == spec_rank_rows(winners@, 0, usize::MAX),
{
    let total = winners.len();
    let mut r: Vec<(usize, String, usize)> = Vec::new();
    let mut curr: usize = 0;
    let mut last: usize = usize::MAX;
    let mut i: usize = 0;
    proof {
        assert(winners@.skip(0) =~= winners@);
        assert(r@ =~= Seq::<(usize, String, usize)>::empty());
    }
    while i < total
        invariant
            total == winners@.len(),
            0 <= i <= total,
            curr <= i,
            spec_rank_rows(winners@, 0, usize::MAX) == r@ + spec_rank_rows(
                winners@.skip(i as int),
                curr,
                last,
            ),
        decreases total - i,
    {
        let ghost rest = winners@.skip(i as int);
        proof {
            assert(rest[0] == winners@[i as int]);
            assert(rest.drop_first() =~= winners@.skip(i as int + 1));
        }
        let votes = winners[i].1;
        if votes < last {
            curr = curr + 1;
            last = votes;
        }
        let ghost old_r = r@;
        r.push((curr, winners[i].0.clone(), votes));
        proof {
            assert(r@ =~= old_r + seq![r@.last()]);
            assert(r@.last() == (curr, winners@[i as int].0, votes));
            assert(old_r + (seq![r@.last()] + spec_rank_rows(winners@.skip(i as int + 1), curr, last))
                =~= r@ + spec_rank_rows(winners@.skip(i as int + 1), curr, last));
        }
        i = i + 1;
    }
    proof {
        assert(winners@.skip(total as int).len() == 0);
        assert(r@ + spec_rank_rows(winners@.skip(total as int), curr, last) =~= r@);
    }
    r
}

} // verus!
