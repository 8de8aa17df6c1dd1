//! Ballot records as the storage layer hands them over, and the pure logic
//! that turns them into ranked name lists for the tally: rank ordering,
//! option lookup, choice-label parsing and ballot assembly.

use vstd::multiset::Multiset;
use vstd::prelude::*;
use vstd::string::StrSliceExecFns;

verus! {

/// One selectable option of a poll.
#[derive(Debug)]
pub struct PollOption {
    pub id_poll: i32,
    pub id: i32,
    pub option: String,
}

/// One ranked choice on a stored ballot.
#[derive(Clone, Copy, PartialEq, Eq, Structural, Debug)]
pub struct BallotChoice {
    pub id_ballot: i32,
    pub id_option: i32,
    pub rank: u8,
}

/// Ranks ascend through the sequence.
pub open spec fn sorted_by_rank(s: Seq<BallotChoice>) -> bool {
    forall|i: int, j: int| 0 <= i <= j < s.len() ==> s[i].rank <= s[j].rank
}

/// Orders a ballot's choices by ascending rank; the first of several equal
/// ranks is taken first, so equal ranks keep their stored order.
pub fn sort_choices_by_rank(choices: Vec<BallotChoice>) -> (r: Vec<BallotChoice>)
    ensures
        r@.len() == choices@.len(),
        r@.to_multiset() == choices@.to_multiset(),
        sorted_by_rank(r@),
{
    proof {
        broadcast use vstd::seq_lib::group_to_multiset_ensures;

    }
    let mut rest = choices;
    let mut out: Vec<BallotChoice> = Vec::new();
    while rest.len() > 0
        invariant
            out@.len() + rest@.len() == choices@.len(),
            out@.to_multiset().add(rest@.to_multiset()) == choices@.to_multiset(),
            sorted_by_rank(out@),
            forall|i: int, j: int|
                0 <= i < out@.len() && 0 <= j < rest@.len() ==> out@[i].rank <= rest@[j].rank,
        decreases rest@.len(),
    {
        let mut best: usize = 0;
        let mut k: usize = 1;
        while k < rest.len()
            invariant
                rest@.len() >= 1,
                0 <= best < k <= rest@.len(),
                forall|d: int| 0 <= d < k ==> rest@[best as int].rank <= rest@[d].rank,
            decreases rest@.len() - k,
        {
            if rest[k].rank < rest[best].rank {
                best = k;
            }
            k = k + 1;
        }
        let ghost old_out = out@;
        let ghost old_rest = rest@;
        let e = rest.remove(best);
        out.push(e);
        proof {
            broadcast use vstd::seq_lib::group_to_multiset_ensures;

            assert(forall|i: int|
                0 <= i < rest@.len() ==> rest@[i] == old_rest[if i < best {
                    i
                } else {
                    i + 1
                }]);
            assert(out@.to_multiset() =~= old_out.to_multiset().insert(e));
            assert(rest@.to_multiset() =~= old_rest.to_multiset().remove(e));
            assert(old_rest.to_multiset().contains(e));
            assert(out@.to_multiset().add(rest@.to_multiset()) =~= old_out.to_multiset().add(
                old_rest.to_multiset(),
            ));
        }
    }
    proof {
        broadcast use vstd::seq_lib::group_to_multiset_ensures;

        assert(rest@.to_multiset() =~= Multiset::<BallotChoice>::empty());
        assert(out@.to_multiset().add(rest@.to_multiset()) =~= out@.to_multiset());
    }
    out
}

/// The name of the first option with this id, if any.
pub open spec fn spec_option_name(options: Seq<PollOption>, id: i32) -> Option<String>
    decreases options.len(),
{
    if options.len() == 0 {
        None
    } else if options[0].id == id {
        Some(options[0].option)
    } else {
        spec_option_name(options.drop_first(), id)
    }
}

/// Looks an option id up in a poll's option list.
pub fn option_name(options: &Vec<PollOption>, id: i32) -> (r: Option<String>)
    ensures
        match r {
            Some(name) => spec_option_name(options@, id) == Some(name),
            None => spec_option_name(options@, id) is None,
        },
{
    let m = options.len();
    let mut i: usize = 0;
    proof {
        assert(options@.skip(0) =~= options@);
    }
    while i < m
        invariant
            m == options@.len(),
            0 <= i <= m,
            spec_option_name(options@, id) == spec_option_name(options@.skip(i as int), id),
        decreases m - i,
    {
        proof {
            assert(options@.skip(i as int)[0] == options@[i as int]);
            assert(options@.skip(i as int).drop_first() =~= options@.skip(i as int + 1));
        }
        if options[i].id == id {
            return Some(options[i].option.clone());
        }
        i = i + 1;
    }
    proof {
        assert(options@.skip(m as int).len() == 0);
    }
    None
}

/// The names of a choice sequence, in order, dropping choices whose option
/// id is unknown.
pub open spec fn spec_choice_names(options: Seq<PollOption>, choices: Seq<BallotChoice>) -> Seq<
    String,
>
    decreases choices.len(),
{
    if choices.len() == 0 {
        Seq::empty()
    } else {
        let rest = spec_choice_names(options, choices.drop_last());
        match spec_option_name(options, choices.last().id_option) {
            Some(name) => rest.push(name),
            None => rest,
        }
    }
}

/// Maps a choice sequence to option names, keeping order and dropping
/// unknown option ids.
pub fn choice_names(options: &Vec<PollOption>, choices: &Vec<BallotChoice>) -> (r: Vec<String>)
    ensures
        r@ == spec_choice_names(options@, choices@),
{
    let m = choices.len();
    let mut r: Vec<String> = Vec::new();
    let mut i: usize = 0;
    proof {
        assert(choices@.take(0) =~= Seq::<BallotChoice>::empty());
    }
    while i < m
        invariant
            m == choices@.len(),
            0 <= i <= m,
            r@ == spec_choice_names(options@, choices@.take(i as int)),
        decreases m - i,
    {
        proof {
            assert(choices@.take(i as int + 1).drop_last() =~= choices@.take(i as int));
            assert(choices@.take(i as int + 1).last() == choices@[i as int]);
        }
        match option_name(options, choices[i].id_option) {
            Some(name) => {
                r.push(name);
            }
            None => {}
        }
        i = i + 1;
    }
    proof {
        assert(choices@.take(m as int) =~= choices@);
    }
    r
}

/// `out` is what `b` converts to: the option names of some rank-ordered
/// arrangement of `b`'s choices, unknown option ids dropped.
pub open spec fn converted_from(
    options: Seq<PollOption>,
    b: Seq<BallotChoice>,
    out: Seq<String>,
) -> bool {
    exists|sc: Seq<BallotChoice>|
        sorted_by_rank(sc) && sc.to_multiset() == b.to_multiset() && out == spec_choice_names(
            options,
            sc,
        )
}

/// Turns stored ballots into ranked name lists: each ballot's choices are
/// ordered by rank, then mapped to their option names; unknown option ids
/// are dropped.
pub fn ballots_from_choices(options: &Vec<PollOption>, ballots: Vec<Vec<BallotChoice>>) -> (r: Vec<
    Vec<String>,
>)
    ensures
        r@.len() == ballots@.len(),
        forall|i: int|
            0 <= i < r@.len() ==> converted_from(options@, ballots@[i]@, (#[trigger] r@[i])@),
{
    let ghost orig = ballots@;
    let mut ballots = ballots;
    let total = ballots.len();
    let mut r: Vec<Vec<String>> = Vec::new();
    let mut i: usize = 0;
    proof {
        assert(orig.skip(0) =~= orig);
    }
    while i < total
        invariant
            total == orig.len(),
            0 <= i <= total,
            ballots@ == orig.skip(i as int),
            r@.len() == i,
            forall|k: int|
                0 <= k < i ==> converted_from(options@, orig[k]@, (#[trigger] r@[k])@),
        decreases total - i,
    {
        let b = ballots.remove(0);
        proof {
            assert(b == orig.skip(i as int)[0]);
            assert(b == orig[i as int]);
            assert(orig.skip(i as int).remove(0) =~= orig.skip(i as int + 1));
        }
        let sorted = sort_choices_by_rank(b);
        let names = choice_names(options, &sorted);
        let ghost old_r = r@;
        r.push(names);
        proof {
            assert(forall|k: int| 0 <= k < old_r.len() ==> r@[k] == old_r[k]);
            let ghost w = sorted@;
            assert(r@[i as int]@ == spec_choice_names(options@, w));
            assert(sorted_by_rank(w) && w.to_multiset() == orig[i as int]@.to_multiset()
                && r@[i as int]@ == spec_choice_names(options@, w));
            assert(converted_from(options@, orig[i as int]@, r@[i as int]@));
        }
        i = i + 1;
    }
    r
}

/// The position of the first dash at or after `i`.
pub open spec fn spec_first_dash(s: Seq<char>, i: int) -> Option<int>
    decreases s.len() - i,
    when 0 <= i
{
    if i >= s.len() {
        None
    } else if s[i] == '-' {
        Some(i)
    } else {
        spec_first_dash(s, i + 1)
    }
}

/// Every character is a decimal digit.
pub open spec fn all_digits(s: Seq<char>) -> bool {
    forall|i: int| 0 <= i < s.len() ==> '0' <= s[i] && s[i] <= '9'
}

/// The number the digit sequence denotes.
pub open spec fn spec_digits_value(s: Seq<char>) -> int
    decreases s.len(),
{
    if s.len() == 0 {
        0
    } else {
        spec_digits_value(s.drop_last()) * 10 + (s.last() as int - '0' as int)
    }
}

pub proof fn lemma_digits_value_nonneg(s: Seq<char>)
    requires
        all_digits(s),
    ensures
        spec_digits_value(s) >= 0,
    decreases s.len(),
{
    if s.len() > 0 {
        lemma_digits_value_nonneg(s.drop_last());
    }
}

/// A digit string is worth at least any of its prefixes.
pub proof fn lemma_digits_prefix_le(s: Seq<char>, k: int)
    requires
        all_digits(s),
        0 <= k <= s.len(),
    ensures
        spec_digits_value(s.take(k)) <= spec_digits_value(s),
    decreases s.len() - k,
{
    if k == s.len() {
        assert(s.take(k) =~= s);
    } else {
        lemma_digits_prefix_le(s.drop_last(), k);
        assert(s.drop_last().take(k) =~= s.take(k));
        lemma_digits_value_nonneg(s.drop_last());
    }
}

/// What a choice label parses to: the digits after the first dash, read as
/// a number no larger than 255.
pub open spec fn spec_parse_choice(s: Seq<char>) -> Option<u8> {
    match spec_first_dash(s, 0) {
        None => None,
        Some(d) => {
            let suffix = s.skip(d + 1);
            if suffix.len() >= 1 && all_digits(suffix) && spec_digits_value(suffix) <= 255 {
                Some(spec_digits_value(suffix) as u8)
            } else {
                None
            }
        },
    }
}

/// Reads the choice position out of a label such as `choice-3`: the digits
/// after the first dash. Anything malformed parses to `None`.
pub fn parse_choice_label(s: &str) -> (r: Option<u8>)
    ensures
        r == spec_parse_choice(s@),
{
    let len = s.unicode_len();
    let mut i: usize = 0;
    while i < len
        invariant
            len == s@.len(),
            0 <= i <= len,
            spec_first_dash(s@, 0) == spec_first_dash(s@, i as int),
        ensures
            0 <= i <= len,
            spec_first_dash(s@, 0) == spec_first_dash(s@, i as int),
            i < len ==> s@[i as int] == '-',
        decreases len - i,
    {
        if s.get_char(i) == '-' {
            break ;
        }
        i = i + 1;
    }
    if i == len {
        return None;
    }
    let ghost d = i as int;
    let ghost suffix = s@.skip(d + 1);
    if i + 1 == len {
        proof {
            assert(suffix.len() == 0);
        }
        return None;
    }
    let mut v: u32 = 0;
    let mut j: usize = i + 1;
    while j < len
        invariant
            len == s@.len(),
            0 <= d,
            d + 1 <= j <= len,
            suffix == s@.skip(d + 1),
            d + 1 < len,
            spec_first_dash(s@, 0) == Some(d),
            all_digits(suffix.take(j - (d + 1))),
            v == spec_digits_value(suffix.take(j - (d + 1))),
            v <= 255,
        decreases len - j,
    {
        let c = s.get_char(j);
        proof {
            assert(s@.skip(d + 1)[j - (d + 1)] == s@[j as int]);
            assert(suffix[j - (d + 1)] == s@[j as int]);
        }
        if !('0' <= c && c <= '9') {
            proof {
                assert(!all_digits(suffix));
            }
            return None;
        }
        let dv: u32 = (c as u32) - 48;
        let ghost prefix = suffix.take(j - (d + 1));
        let ghost prefix2 = suffix.take(j + 1 - (d + 1));
        proof {
            assert(prefix2.drop_last() =~= prefix);
            assert(prefix2.last() == suffix[j - (d + 1)]);
        }
        v = v * 10 + dv;
        j = j + 1;
        if v > 255 {
            proof {
                if all_digits(suffix) {
                    lemma_digits_prefix_le(suffix, j - (d + 1));
                }
            }
            return None;
        }
    }
    proof {
        assert(suffix.take(len - (d + 1)) =~= suffix);
        assert(suffix.len() >= 1);
    }
    Some(v as u8)
}

/// What can go wrong assembling a ballot from a voter's picks.
#[derive(Clone, Copy, PartialEq, Eq, Structural, Debug)]
pub enum VoteError {
    /// The same option was picked in two choice positions.
    DuplicateChoice,
    /// Two picks carried the same choice position.
    DuplicateRank,
}

/// The id of the first option with this name, if any.
pub open spec fn spec_option_id_by_name(options: Seq<PollOption>, name: Seq<char>) -> Option<i32>
    decreases options.len(),
{
    if options.len() == 0 {
        None
    } else if options[0].option@ == name {
        Some(options[0].id)
    } else {
        spec_option_id_by_name(options.drop_first(), name)
    }
}

/// Looks an option up by its displayed name.
pub fn option_id_by_name(options: &Vec<PollOption>, name: &String) -> (r: Option<i32>)
    ensures
        r == spec_option_id_by_name(options@, name@),
{
    let m = options.len();
    let mut i: usize = 0;
    proof {
        assert(options@.skip(0) =~= options@);
    }
    while i < m
        invariant
            m == options@.len(),
            0 <= i <= m,
            spec_option_id_by_name(options@, name@) == spec_option_id_by_name(
                options@.skip(i as int),
                name@,
            ),
        decreases m - i,
    {
        proof {
            assert(options@.skip(i as int)[0] == options@[i as int]);
            assert(options@.skip(i as int).drop_first() =~= options@.skip(i as int + 1));
        }
        if options[i].option.eq(name) {
            return Some(options[i].id);
        }
        i = i + 1;
    }
    proof {
        assert(options@.skip(m as int).len() == 0);
    }
    None
}

/// What a sequence of picks assembles to: each pick is resolved to the
/// first option bearing its name (unresolved picks are ignored); a pick
/// whose option was already taken, or whose position was already used,
/// stops the assembly with the matching error.
pub open spec fn spec_build_choices(options: Seq<PollOption>, picks: Seq<(u8, String)>) -> Result<
    Seq<(i32, u8)>,
    VoteError,
>
    decreases picks.len(),
{
    if picks.len() == 0 {
        Ok(Seq::empty())
    } else {
        match spec_build_choices(options, picks.drop_last()) {
            Err(e) => Err(e),
            Ok(acc) => {
                let p = picks.last();
                match spec_option_id_by_name(options, p.1@) {
                    None => Ok(acc),
                    Some(id) => if exists|k: int| 0 <= k < acc.len() && acc[k].0 == id {
                        Err(VoteError::DuplicateChoice)
                    } else if exists|k: int| 0 <= k < acc.len() && acc[k].1 == p.0 {
                        Err(VoteError::DuplicateRank)
                    } else {
                        Ok(acc.push((id, p.0)))
                    },
                }
            },
        }
    }
}

/// Once the assembly fails on a prefix, it fails the same way on the whole.
pub proof fn lemma_build_err_persists(
    options: Seq<PollOption>,
    picks: Seq<(u8, String)>,
    j: int,
)
    requires
        0 <= j <= picks.len(),
        spec_build_choices(options, picks.take(j)) is Err,
    ensures
        spec_build_choices(options, picks) == spec_build_choices(options, picks.take(j)),
    decreases picks.len() - j,
{
    if j == picks.len() {
        assert(picks.take(j) =~= picks);
    } else {
        assert(picks.drop_last().take(j) =~= picks.take(j));
        lemma_build_err_persists(options, picks.drop_last(), j);
    }
}

/// Assembles the stored form of a ballot, `(option id, choice position)`
/// pairs, from a voter's picks, refusing duplicate options and duplicate
/// positions.
pub fn build_ballot_choices(options: &Vec<PollOption>, picks: &Vec<(u8, String)>) -> (r: Result<
    Vec<(i32, u8)>,
    VoteError,
>)
    ensures
        match r {
            Ok(v) => spec_build_choices(options@, picks@) == Ok::<Seq<(i32, u8)>, VoteError>(v@),
            Err(e) => spec_build_choices(options@, picks@) == Err::<Seq<(i32, u8)>, VoteError>(e),
        },
{
    let total = picks.len();
    let mut acc: Vec<(i32, u8)> = Vec::new();
    let mut i: usize = 0;
    proof {
        assert(picks@.take(0) =~= Seq::<(u8, String)>::empty());
    }
    while i < total
        invariant
            total == picks@.len(),
            0 <= i <= total,
            spec_build_choices(options@, picks@.take(i as int)) == Ok::<
                Seq<(i32, u8)>,
                VoteError,
            >(acc@),
        decreases total - i,
    {
        let ghost prefix = picks@.take(i as int);
        let ghost prefix2 = picks@.take(i as int + 1);
        proof {
            assert(prefix2.drop_last() =~= prefix);
            assert(prefix2.last() == picks@[i as int]);
        }
        let rank = picks[i].0;
        match option_id_by_name(options, &picks[i].1) {
            None => {}
            Some(id) => {
                let m = acc.len();
                let mut k: usize = 0;
                let mut dup_id = false;
                let mut dup_rank = false;
                while k < m
                    invariant
                        m == acc@.len(),
                        0 <= k <= m,
                        dup_id == exists|t: int| 0 <= t < k && acc@[t].0 == id,
                        dup_rank == exists|t: int| 0 <= t < k && acc@[t].1 == rank,
                    decreases m - k,
                {
                    if acc[k].0 == id {
                        dup_id = true;
                    }
                    if acc[k].1 == rank {
                        dup_rank = true;
                    }
                    k = k + 1;
                }
                if dup_id {
                    proof {
                        lemma_build_err_persists(options@, picks@, i as int + 1);
                    }
                    return Err(VoteError::DuplicateChoice);
                }
                if dup_rank {
                    proof {
                        lemma_build_err_persists(options@, picks@, i as int + 1);
                    }
                    return Err(VoteError::DuplicateRank);
                }
                acc.push((id, rank));
            }
        }
        i = i + 1;
    }
    proof {
        assert(picks@.take(total as int) =~= picks@);
    }
    Ok(acc)
}

} // verus!
