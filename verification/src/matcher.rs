//! The constrained randomized matcher.
//!
//! Participants are handled in two layers. The core works on indices
//! `0..n` standing for the `n` participants: it draws a random processing
//! order, greedily picks a random legal receiver for each giver, and starts
//! over on a dead end, up to a fixed number of attempts. A thin layer maps
//! participant names to indices and back, so that callers speak in names.

use vstd::prelude::*;

use crate::errors::AppError;
use rand::seq::SliceRandom;
use rand::Rng;

verus! {

/// How many times the matcher restarts with a fresh random order before it
/// gives up.
pub const MAX_RETRY: u32 = 50;

/// Some declared couple forbids matching giver `g` with receiver `r`:
/// a couple excludes both directions, whichever way it was stored.
pub open spec fn couple_forbids(couples: Seq<(usize, usize)>, g: usize, r: usize) -> bool {
    exists|k: int|
        0 <= k < couples.len() && ((couples[k].0 == g && couples[k].1 == r) || (couples[k].0 == r
            && couples[k].1 == g))
}

/// What a successful matching over participants `0..n` satisfies: every
/// giver is paired with some other participant, no receiver is used twice,
/// no couple is matched in either direction, and no two participants give
/// to each other.
pub open spec fn valid_assignment(n: nat, couples: Seq<(usize, usize)>, a: Seq<usize>) -> bool {
    &&& a.len() == n
    &&& forall|i: int| 0 <= i < n ==> a[i] < n
    &&& forall|i: int| 0 <= i < n ==> a[i] != i
    &&& forall|i: int, j: int| 0 <= i < n && 0 <= j < n && i != j ==> a[i] != a[j]
    &&& forall|i: int| 0 <= i < n ==> !couple_forbids(couples, i as usize, a[i])
    &&& forall|i: int| 0 <= i < n ==> a[a[i] as int] != i
}

/// Relies on `rand::seq::SliceRandom::shuffle`: a Fisher-Yates shuffle that
/// permutes the slice in place by swaps, so the elements form the same
/// multiset as before.
#[verifier::external_body]
fn shuffle(v: &mut Vec<usize>)
    ensures
        final(v)@.len() == old(v)@.len(),
        final(v)@.to_multiset() == old(v)@.to_multiset(),
{
    v.shuffle(&mut rand::thread_rng())
}

/// Relies on `rand::Rng::gen_range` on `0..n`: for a non-empty range it
/// returns a value drawn from the range; it panics only on an empty range,
/// which the precondition rules out.
#[verifier::external_body]
fn rand_below(n: usize) -> (r: usize)
    requires
        n > 0,
    ensures
        r < n,
{
    rand::thread_rng().gen_range(0..n)
}

/// Walks the declared couples and reports whether one of them forbids
/// matching giver `g` with receiver `r`.
fn couple_forbids_exec(couples: &Vec<(usize, usize)>, g: usize, r: usize) -> (b: bool)
    ensures
        b == couple_forbids(couples@, g, r),
{
    let mut k: usize = 0;
    while k < couples.len()
        invariant
            k <= couples@.len(),
            forall|j: int|
                0 <= j < k ==> !((couples@[j].0 == g && couples@[j].1 == r) || (couples@[j].0 == r
                    && couples@[j].1 == g)),
        decreases couples@.len() - k,
    {
        let c = couples[k];
        if (c.0 == g && c.1 == r) || (c.0 == r && c.1 == g) {
            return true;
        }
        k = k + 1;
    }
    false
}

/// From "the shuffled order holds the same multiset as the identity
/// sequence on `0..n`", derive the facts the matching loop needs: the
/// order has values below `n` only, holds no duplicates, and covers every
/// giver.
proof fn lemma_permutation_facts(init: Seq<usize>, order: Seq<usize>)
    requires
        order.len() == init.len(),
        order.to_multiset() == init.to_multiset(),
        forall|j: int| 0 <= j < init.len() ==> init[j] == j,
    ensures
        forall|j: int| 0 <= j < order.len() ==> order[j] < order.len(),
        order.no_duplicates(),
        forall|p: int| 0 <= p < order.len() ==> #[trigger] order.contains(p as usize),
{
    broadcast use vstd::seq_lib::group_to_multiset_ensures;

    assert(init.no_duplicates());
    init.lemma_multiset_has_no_duplicates();
    assert forall|p: int| 0 <= p < order.len() implies #[trigger] order.contains(p as usize) by {
        assert(init[p] == p as usize);
        assert(init.contains(p as usize));
        assert(init.to_multiset().count(p as usize) > 0);
    }
    assert forall|j: int| 0 <= j < order.len() implies order[j] < order.len() by {
        assert(order.contains(order[j]));
        assert(init.to_multiset().count(order[j]) > 0);
        assert(init.contains(order[j]));
        let w = choose|w: int| 0 <= w < init.len() && init[w] == order[j];
        assert(init[w] == w as usize);
    }
    assert forall|x: usize| order.to_multiset().contains(x) implies order.to_multiset().count(x)
        == 1 by {
        assert(init.to_multiset().contains(x));
    }
    order.lemma_multiset_has_no_duplicates_conv();
}

/// The running state of one attempt over givers `0..n`: `res[i]` is giver
/// `i`'s receiver where `assigned[i]` holds, and `received[c]` records that
/// `c` was already consumed as a receiver. Every pairing made so far obeys
/// the matching rules.
spec fn partial_ok(
    n: nat,
    couples: Seq<(usize, usize)>,
    res: Seq<usize>,
    assigned: Seq<bool>,
    received: Seq<bool>,
) -> bool {
    &&& res.len() == n
    &&& assigned.len() == n
    &&& received.len() == n
    &&& forall|i: int| 0 <= i < n && assigned[i] ==> #[trigger] res[i] < n
    &&& forall|i: int| 0 <= i < n && assigned[i] ==> #[trigger] res[i] != i
    &&& forall|i: int| 0 <= i < n && assigned[i] ==> received[#[trigger] res[i] as int]
    &&& forall|i: int|
        0 <= i < n && assigned[i] ==> !couple_forbids(couples, i as usize, #[trigger] res[i])
    &&& forall|i1: int, i2: int|
        0 <= i1 < n && 0 <= i2 < n && i1 != i2 && assigned[i1] && assigned[i2] ==> #[trigger] res[i1]
            != #[trigger] res[i2]
    &&& forall|i: int|
        0 <= i < n && assigned[i] && assigned[#[trigger] res[i] as int] ==> res[res[i] as int] != i
}

/// `c` is a legal receiver for giver `g` in the current state: another
/// participant, not yet consumed as a receiver, not forbidden by a couple,
/// and not already giving to `g` (which would make the pair reciprocal).
spec fn cand_ok(
    n: nat,
    couples: Seq<(usize, usize)>,
    res: Seq<usize>,
    assigned: Seq<bool>,
    received: Seq<bool>,
    g: usize,
    c: usize,
) -> bool {
    &&& c < n
    &&& c != g
    &&& !received[c as int]
    &&& !couple_forbids(couples, g, c)
    &&& !(assigned[c as int] && res[c as int] == g)
}

/// One matching attempt under one fresh random ordering: processes the
/// givers in shuffled order and picks a random legal receiver for each;
/// reports `None` as soon as some giver has no legal receiver left. An
/// empty group always succeeds with the empty assignment.
fn try_attempt(n: usize, couples: &Vec<(usize, usize)>) -> (r: Option<Vec<usize>>)
    ensures
        match r {
            Some(a) => valid_assignment(n as nat, couples@, a@),
            None => n > 0,
        },
{
    // The processing order: a random permutation of 0..n.
    let mut order: Vec<usize> = Vec::new();
    let mut i: usize = 0;
    while i < n
        invariant
            i <= n,
            order@.len() == i,
            forall|j: int| 0 <= j < i ==> order@[j] == j,
        decreases n - i,
    {
        order.push(i);
        i = i + 1;
    }
    let ghost init = order@;
    shuffle(&mut order);
    proof {
        lemma_permutation_facts(init, order@);
    }

    let mut res: Vec<usize> = vec![0usize; n];
    let mut assigned: Vec<bool> = vec![false; n];
    let mut received: Vec<bool> = vec![false; n];

    let mut k: usize = 0;
    while k < n
        invariant
            k <= n,
            n == order@.len(),
            partial_ok(n as nat, couples@, res@, assigned@, received@),
            forall|j: int| 0 <= j < n ==> order@[j] < n,
            order@.no_duplicates(),
            forall|p: int| 0 <= p < n ==> #[trigger] order@.contains(p as usize),
            forall|j: int| 0 <= j < k ==> assigned@[#[trigger] order@[j] as int],
        decreases n - k,
    {
        let person = order[k];

        // Collect every participant still legal as this giver's receiver.
        let mut cands: Vec<usize> = Vec::new();
        let mut other: usize = 0;
        while other < n
            invariant
                other <= n,
                person < n,
                n == res@.len(),
                n == assigned@.len(),
                n == received@.len(),
                forall|t: int|
                    0 <= t < cands@.len() ==> cand_ok(
                        n as nat,
                        couples@,
                        res@,
                        assigned@,
                        received@,
                        person,
                        #[trigger] cands@[t],
                    ),
            decreases n - other,
        {
            if other != person && !received[other] && !couple_forbids_exec(
                couples,
                person,
                other,
            ) && !(assigned[other] && res[other] == person) {
                cands.push(other);
            }
            other = other + 1;
        }

        if cands.len() == 0 {
            // Dead end: this ordering cannot be completed.
            return None;
        }
        let pick = rand_below(cands.len());
        let c = cands[pick];

        res[person] = c;
        assigned[person] = true;
        received[c] = true;
        k = k + 1;
    }

    proof {
        assert forall|p: int| 0 <= p < n implies assigned@[p] by {
            assert(order@.contains(p as usize));
            let j = choose|j: int| 0 <= j < order@.len() && order@[j] == p as usize;
            assert(assigned@[order@[j] as int]);
        }
    }
    Some(res)
}

/// Matches the `n` participants `0..n` under the given couple exclusions:
/// tries fresh random orderings until one completes, up to `MAX_RETRY`
/// attempts. An empty group always succeeds; a failure carries the single
/// error and can only come from a non-empty group.
pub fn attribute_gift_by_index(n: usize, couples: &Vec<(usize, usize)>) -> (r: Result<
    Vec<usize>,
    AppError,
>)
    ensures
        match r {
            Ok(a) => valid_assignment(n as nat, couples@, a@),
            Err(e) => e == AppError::AttemptsLimitReached && n > 0,
        },
        n == 0 ==> r is Ok,
{
    let mut attempt: u32 = 0;
    while attempt < MAX_RETRY
        invariant
            attempt > 0 ==> n > 0,
        decreases MAX_RETRY - attempt,
    {
        match try_attempt(n, couples) {
            Some(a) => {
                return Ok(a);
            },
            None => {
                attempt = attempt + 1;
            },
        }
    }
    Err(AppError::AttemptsLimitReached)
}

/// Injectivity seen from the receivers' side: under a valid assignment of
/// `n` givers, every participant `r` also receives, from some giver. With
/// the pairwise-distinct clause of `valid_assignment` this pins down that
/// each participant receives exactly once. The proof is a pigeonhole
/// argument: were `r` missed, the `n` pairwise-distinct receivers would
/// all lie in a set of `n - 1` values.
pub proof fn lemma_every_index_receives(
    n: nat,
    couples: Seq<(usize, usize)>,
    a: Seq<usize>,
    r: usize,
)
    requires
        valid_assignment(n, couples, a),
        r < n,
    ensures
        exists|i: int| 0 <= i < n && #[trigger] a[i] == r,
{
    if !(exists|i: int| 0 <= i < n && #[trigger] a[i] == r) {
        let ai = a.map_values(|x: usize| x as int);
        assert(ai.len() == n);
        assert forall|i: int, j: int|
            0 <= i < ai.len() && 0 <= j < ai.len() && i != j implies ai[i] != ai[j] by {
            assert(a[i] != a[j]);
        }
        assert(ai.no_duplicates());
        ai.unique_seq_to_set();
        let target = vstd::set_lib::set_int_range(0, n as int).remove(r as int);
        vstd::set_lib::lemma_int_range(0, n as int);
        assert forall|x: int| ai.to_set().contains(x) implies target.contains(x) by {
            assert(ai.contains(x));
            let i = choose|i: int| 0 <= i < ai.len() && ai[i] == x;
            assert(a[i] < n);
            assert(a[i] != r);
        }
        assert(ai.to_set().subset_of(target));
        vstd::set_lib::lemma_len_subset(ai.to_set(), target);
        assert(target.len() == n - 1);
        assert(false);
    }
}

/// The participant names are pairwise distinct: the caller hands the
/// matcher a set.
pub open spec fn distinct_names(ps: Seq<String>) -> bool {
    forall|i: int, j: int| 0 <= i < ps.len() && 0 <= j < ps.len() && i != j ==> ps[i]@ != ps[j]@
}

/// `s` names one of the participants in `ps`.
pub open spec fn is_participant(ps: Seq<String>, s: String) -> bool {
    exists|j: int| 0 <= j < ps.len() && (#[trigger] ps[j])@ == s@
}

/// Someone in the assignment `a` gives to the name `s`.
pub open spec fn some_giver_for(a: Seq<(String, String)>, s: String) -> bool {
    exists|i: int| 0 <= i < a.len() && (#[trigger] a[i]).1@ == s@
}

/// What a successful run hands back, stated over the character sequences
/// of the names. Entry `i` pairs giver `ps[i]` with a receiver who is
/// another participant; no receiver appears twice, no couple is matched in
/// either direction (vacuously for a couple naming someone outside the
/// group), and no two participants give to each other.
pub open spec fn assignment_ok(
    ps: Seq<String>,
    couples: Seq<(String, String)>,
    a: Seq<(String, String)>,
) -> bool {
    &&& a.len() == ps.len()
    &&& forall|i: int| 0 <= i < a.len() ==> (#[trigger] a[i]).0@ == ps[i]@
    &&& forall|i: int| 0 <= i < a.len() ==> is_participant(ps, (#[trigger] a[i]).1)
    &&& forall|j: int| 0 <= j < ps.len() ==> some_giver_for(a, #[trigger] ps[j])
    &&& forall|i: int| 0 <= i < a.len() ==> (#[trigger] a[i]).1@ != a[i].0@
    &&& forall|i1: int, i2: int|
        0 <= i1 < a.len() && 0 <= i2 < a.len() && i1 != i2 ==> (#[trigger] a[i1]).1@ != (
        #[trigger] a[i2]).1@
    &&& forall|i: int, k: int|
        0 <= i < a.len() && 0 <= k < couples.len() && (#[trigger] a[i]).0@ == (
        #[trigger] couples[k]).0@ ==> a[i].1@ != couples[k].1@
    &&& forall|i: int, k: int|
        0 <= i < a.len() && 0 <= k < couples.len() && (#[trigger] a[i]).0@ == (
        #[trigger] couples[k]).1@ ==> a[i].1@ != couples[k].0@
    &&& forall|i1: int, i2: int|
        0 <= i1 < a.len() && 0 <= i2 < a.len() && i1 != i2 ==> !((#[trigger] a[i1]).1@ == (
        #[trigger] a[i2]).0@ && a[i2].1@ == a[i1].0@)
}

/// Finds the position of `name` in the participant list by exact string
/// equality.
fn index_of(participants: &Vec<String>, name: &String) -> (r: Option<usize>)
    ensures
        match r {
            Some(i) => i < participants@.len() && participants@[i as int]@ == name@,
            None => forall|j: int| 0 <= j < participants@.len() ==> participants@[j]@ != name@,
        },
{
    let mut j: usize = 0;
    while j < participants.len()
        invariant
            j <= participants@.len(),
            forall|t: int| 0 <= t < j ==> participants@[t]@ != name@,
        decreases participants@.len() - j,
    {
        if participants[j] == *name {
            return Some(j);
        }
        j = j + 1;
    }
    None
}

/// Every pair of positions that realizes the couple `c` in the participant
/// list is recorded among the index couples `ic`.
spec fn couple_covered(ps: Seq<String>, c: (String, String), ic: Seq<(usize, usize)>) -> bool {
    forall|i: int, j: int|
        0 <= i < ps.len() && 0 <= j < ps.len() && (#[trigger] ps[i])@ == c.0@ && (
        #[trigger] ps[j])@ == c.1@ ==> ic.contains((i as usize, j as usize))
}

/// Recording one more index couple keeps every couple covered so far
/// covered.
proof fn lemma_covered_push(
    ps: Seq<String>,
    c: (String, String),
    ic: Seq<(usize, usize)>,
    e: (usize, usize),
)
    requires
        couple_covered(ps, c, ic),
    ensures
        couple_covered(ps, c, ic.push(e)),
{
    assert forall|i: int, j: int|
        0 <= i < ps.len() && 0 <= j < ps.len() && (#[trigger] ps[i])@ == c.0@ && (
        #[trigger] ps[j])@ == c.1@ implies ic.push(e).contains((i as usize, j as usize)) by {
        assert(ic.contains((i as usize, j as usize)));
        let t = choose|t: int| 0 <= t < ic.len() && ic[t] == (i as usize, j as usize);
        assert(ic.push(e)[t] == (i as usize, j as usize));
    }
}

/// Carries the index-level guarantees over to the named output: what
/// `attribute_gift` builds from a valid index assignment satisfies
/// `assignment_ok`.
proof fn lemma_assignment_ok(
    ps: Seq<String>,
    couples: Seq<(String, String)>,
    ic: Seq<(usize, usize)>,
    asg: Seq<usize>,
    out: Seq<(String, String)>,
)
    requires
        ps.len() <= usize::MAX,
        distinct_names(ps),
        valid_assignment(ps.len() as nat, ic, asg),
        forall|k: int| 0 <= k < couples.len() ==> couple_covered(ps, #[trigger] couples[k], ic),
        out.len() == ps.len(),
        forall|t: int|
            0 <= t < out.len() ==> (#[trigger] out[t]).0@ == ps[t]@ && out[t].1@ == ps[asg[t] as int]@,
    ensures
        assignment_ok(ps, couples, out),
{
    let n = ps.len();
    assert forall|i: int| 0 <= i < n implies is_participant(ps, (#[trigger] out[i]).1) by {
        assert(ps[asg[i] as int]@ == out[i].1@);
    }
    assert forall|j: int| 0 <= j < n implies some_giver_for(out, #[trigger] ps[j]) by {
        lemma_every_index_receives(n as nat, ic, asg, j as usize);
        let i = choose|i: int| 0 <= i < n && #[trigger] asg[i] == j as usize;
        assert(out[i].1@ == ps[asg[i] as int]@);
        assert(out[i].1@ == ps[j]@);
    }
    assert forall|i: int, k: int|
        0 <= i < n && 0 <= k < couples.len() && (#[trigger] out[i]).0@ == (
        #[trigger] couples[k]).0@ implies out[i].1@ != couples[k].1@ by {
        if out[i].1@ == couples[k].1@ {
            assert(ps[i]@ == couples[k].0@);
            assert(ps[asg[i] as int]@ == couples[k].1@);
            assert(couple_covered(ps, couples[k], ic));
            assert(ic.contains((i as usize, asg[i])));
            assert(couple_forbids(ic, i as usize, asg[i]));
        }
    }
    assert forall|i: int, k: int|
        0 <= i < n && 0 <= k < couples.len() && (#[trigger] out[i]).0@ == (
        #[trigger] couples[k]).1@ implies out[i].1@ != couples[k].0@ by {
        if out[i].1@ == couples[k].0@ {
            assert(ps[asg[i] as int]@ == couples[k].0@);
            assert(ps[i]@ == couples[k].1@);
            assert(couple_covered(ps, couples[k], ic));
            assert(ic.contains((asg[i], i as usize)));
            assert(couple_forbids(ic, i as usize, asg[i]));
        }
    }
    assert forall|i1: int, i2: int|
        0 <= i1 < n && 0 <= i2 < n && i1 != i2 implies !((#[trigger] out[i1]).1@ == (
        #[trigger] out[i2]).0@ && out[i2].1@ == out[i1].0@) by {
        if out[i1].1@ == out[i2].0@ && out[i2].1@ == out[i1].0@ {
            assert(ps[asg[i1] as int]@ == ps[i2]@);
            assert(asg[i1] == i2);
            assert(ps[asg[i2] as int]@ == ps[i1]@);
            assert(asg[i2] == i1);
            assert(asg[asg[i1] as int] != i1);
        }
    }
    assert forall|i1: int, i2: int|
        0 <= i1 < n && 0 <= i2 < n && i1 != i2 implies (#[trigger] out[i1]).1@ != (
        #[trigger] out[i2]).1@ by {
        assert(asg[i1] != asg[i2]);
        assert(ps[asg[i1] as int]@ != ps[asg[i2] as int]@);
    }
    assert forall|i: int| 0 <= i < n implies (#[trigger] out[i]).1@ != out[i].0@ by {
        assert(asg[i] != i);
        assert(ps[asg[i] as int]@ != ps[i]@);
    }
}

/// Produces a secret-santa assignment for the named participants: each is
/// paired with another one to give a gift to, so that nobody gives to
/// themselves, nobody receives twice, no declared couple is matched in
/// either direction, and no two participants give to each other. A couple
/// naming someone outside the group is inert. The pairing is randomized;
/// when no valid assignment was found within `MAX_RETRY` fresh attempts,
/// the single error is returned. An empty group always succeeds with the
/// empty assignment.
pub fn attribute_gift(participants: &Vec<String>, couples: &Vec<(String, String)>) -> (r: Result<
    Vec<(String, String)>,
    AppError,
>)
    requires
        distinct_names(participants@),
    ensures
        match r {
            Ok(a) => assignment_ok(participants@, couples@, a@),
            Err(e) => e == AppError::AttemptsLimitReached && participants@.len() > 0,
        },
        participants@.len() == 0 ==> r is Ok,
{
    let n = participants.len();

    // Translate each couple whose two names are both present into index
    // form; a couple naming someone outside the group never matches a
    // pairing attempt and needs no entry.
    let mut idx_couples: Vec<(usize, usize)> = Vec::new();
    let mut k: usize = 0;
    while k < couples.len()
        invariant
            k <= couples@.len(),
            distinct_names(participants@),
            forall|k2: int|
                0 <= k2 < k ==> couple_covered(
                    participants@,
                    #[trigger] couples@[k2],
                    idx_couples@,
                ),
        decreases couples@.len() - k,
    {
        let pair = &couples[k];
        let c0 = index_of(participants, &pair.0);
        let c1 = index_of(participants, &pair.1);
        match (c0, c1) {
            (Some(i0), Some(j0)) => {
                proof {
                    assert forall|k2: int| 0 <= k2 < k implies couple_covered(
                        participants@,
                        #[trigger] couples@[k2],
                        idx_couples@.push((i0, j0)),
                    ) by {
                        lemma_covered_push(participants@, couples@[k2], idx_couples@, (i0, j0));
                    }
                }
                idx_couples.push((i0, j0));
                proof {
                    assert forall|i: int, j: int|
                        0 <= i < participants@.len() && 0 <= j < participants@.len() && (
                        #[trigger] participants@[i])@ == couples@[k as int].0@ && (
                        #[trigger] participants@[j])@ == couples@[k as int].1@ implies idx_couples@.contains(
                        (i as usize, j as usize)) by {
                        assert(i == i0);
                        assert(j == j0);
                        assert(idx_couples@[idx_couples@.len() - 1] == (i0, j0));
                    }
                    assert(couple_covered(participants@, couples@[k as int], idx_couples@));
                }
            },
            _ => {
                proof {
                    assert(couple_covered(participants@, couples@[k as int], idx_couples@));
                }
            },
        }
        k = k + 1;
    }

    match attribute_gift_by_index(n, &idx_couples) {
        Err(e) => Err(e),
        Ok(asg) => {
            let mut out: Vec<(String, String)> = Vec::new();
            let mut i: usize = 0;
            while i < n
                invariant
                    i <= n,
                    out@.len() == i,
                    n == participants@.len(),
                    valid_assignment(n as nat, idx_couples@, asg@),
                    forall|t: int|
                        0 <= t < i ==> (#[trigger] out@[t]).0@ == participants@[t]@ && out@[t].1@
                            == participants@[asg@[t] as int]@,
                decreases n - i,
            {
                let giver = participants[i].clone();
                let receiver = participants[asg[i]].clone();
                out.push((giver, receiver));
                i = i + 1;
            }
            proof {
                lemma_assignment_ok(participants@, couples@, idx_couples@, asg@, out@);
            }
            Ok(out)
        },
    }
}

} // verus!
