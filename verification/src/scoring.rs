//! Hand scoring: a heuristic strength score for a hand of cards.
//!
//! The score of a non-empty hand is `raw * mult`, where `raw` sums a
//! per-card weight (trump cards far outweigh non-trump cards) and the
//! diversity multiplier `mult = ((n + 1 - u) / n) * 2/5 + 4/5` rewards
//! repeated ranks (`n` cards, `u` distinct ranks). Over the common
//! denominator `5 * n` this is the exact rational
//! `raw * (6n + 2 - 2u) / (5n)`, which is what [`score_hand`] returns:
//! no rounding, and reordering the hand cannot change it.

use vstd::prelude::*;

use crate::game_pieces::Card;
use crate::game_pieces::Value;
use crate::game_pieces::lemma_rank_idx_bijective;
use crate::game_pieces::rank_idx;

verus! {

/// The weight a single card contributes to the raw score: a trump card
/// weighs its rank position plus one plus three times the Ace's
/// position (37 through 49, so any trump outweighs any non-trump), a
/// non-trump card three times its rank position (0 through 36).
pub open spec fn weight_spec(c: Card) -> int {
    if c.trump {
        rank_idx(c.value) + 1 + 3 * 12
    } else {
        3 * rank_idx(c.value)
    }
}

/// The sum of the per-card weights of a hand.
pub open spec fn raw_score(s: Seq<Card>) -> int
    decreases s.len(),
{
    if s.len() == 0 {
        0
    } else {
        raw_score(s.drop_last()) + weight_spec(s.last())
    }
}

/// The set of ranks that occur in a hand (suit ignored).
pub open spec fn ranks_of(s: Seq<Card>) -> Set<Value>
    decreases s.len(),
{
    if s.len() == 0 {
        Set::empty()
    } else {
        ranks_of(s.drop_last()).insert(s.last().value)
    }
}

/// The number of distinct ranks in a hand.
pub open spec fn distinct_ranks(s: Seq<Card>) -> int {
    ranks_of(s).len() as int
}

/// Numerator of the exact score of a hand: the raw score times
/// `6n + 2 - 2u`, for `n` cards and `u` distinct ranks.
pub open spec fn score_num(s: Seq<Card>) -> int {
    raw_score(s) * (6 * s.len() as int + 2 - 2 * distinct_ranks(s))
}

/// Denominator of the exact score of a hand: `5n` for `n` cards.
pub open spec fn score_den(s: Seq<Card>) -> int {
    5 * s.len() as int
}

/// The strength score of a hand, as the exact rational `num / den`.
/// The denominator is always positive; the fraction is deliberately
/// not reduced, so equal hands give identical numerators and
/// denominators.
#[derive(PartialEq, Eq, Structural, Clone, Copy, Debug)]
pub struct Score {
    pub num: u32,
    pub den: u32,
}

/// Whether `seen` holds the value `v`.
fn contains_value(seen: &Vec<Value>, v: Value) -> (r: bool)
    ensures
        r == seen@.contains(v),
{
    let mut j: usize = 0;
    while j < seen.len()
        invariant
            j <= seen@.len(),
            forall|k: int| 0 <= k < j ==> seen@[k] != v,
        decreases seen@.len() - j,
    {
        if seen[j] == v {
            return true;
        }
        j = j + 1;
    }
    false
}

/// Score a hand of cards. An empty hand has no defined score (its
/// multiplier would divide by zero), so it is rejected explicitly with
/// `None` rather than scored; every non-empty hand gets the exact
/// rational score `score_num / score_den`. A hand comes out of a
/// single 52-card deck, which caps its size at 52 and thereby keeps
/// the exact numerator within machine range.
pub fn score_hand(hand: &Vec<Card>) -> (r: Option<Score>)
    requires
        hand@.len() <= 52,
    ensures
        (r is Some) <==> hand@.len() > 0,
        r matches Some(sc) ==> sc.num == score_num(hand@) && sc.den == score_den(hand@),
{
    let n = hand.len();
    if n == 0 {
        return None;
    }
    let mut raw: u32 = 0;
    let mut i: usize = 0;
    while i < n
        invariant
            i <= n,
            n == hand@.len(),
            n <= 52,
            raw == raw_score(hand@.take(i as int)),
            raw <= 49 * i,
        decreases n - i,
    {
        let c = hand[i];
        let idx = c.value.rank_index();
        proof {
            lemma_rank_idx_bijective(c.value, c.value);
        }
        let w: u32 = if c.trump {
            idx + 1 + 36
        } else {
            3 * idx
        };
        proof {
            assert(hand@.take(i as int + 1).drop_last() =~= hand@.take(i as int));
            assert(hand@.take(i as int + 1).last() == hand@[i as int]);
        }
        raw = raw + w;
        i = i + 1;
    }
    let mut seen: Vec<Value> = Vec::new();
    let mut i: usize = 0;
    while i < n
        invariant
            i <= n,
            n == hand@.len(),
            n <= 52,
            seen@.no_duplicates(),
            seen@.to_set() == ranks_of(hand@.take(i as int)),
            seen@.len() <= i,
        decreases n - i,
    {
        let v = hand[i].value;
        let already = contains_value(&seen, v);
        proof {
            assert(hand@.take(i as int + 1).drop_last() =~= hand@.take(i as int));
            assert(hand@.take(i as int + 1).last() == hand@[i as int]);
            seen@.lemma_push_to_set_commute(v);
            if already {
                assert(seen@.to_set().contains(v));
                assert(seen@.to_set().insert(v) =~= seen@.to_set());
            }
        }
        if !already {
            let ghost pre = seen@;
            seen.push(v);
            proof {
                assert(seen@.no_duplicates()) by {
                    assert(forall|k: int| 0 <= k < pre.len() ==> pre[k] != v);
                }
            }
        }
        i = i + 1;
    }
    let u = seen.len();
    proof {
        assert(hand@.take(n as int) =~= hand@);
        seen@.unique_seq_to_set();
    }
    let nu: u32 = n as u32;
    let uu: u32 = u as u32;
    let mult: u32 = 6 * nu + 2 - 2 * uu;
    proof {
        assert(raw as int * mult as int <= 2548 * 314) by (nonlinear_arith)
            requires
                0 <= raw as int <= 2548,
                0 <= mult as int <= 314,
        {}
    }
    let num: u32 = raw * mult;
    let den: u32 = 5 * nu;
    Some(Score { num, den })
}

/// Removing one card from a hand lowers the raw score by exactly that
/// card's weight.
proof fn lemma_raw_score_remove(s: Seq<Card>, i: int)
    requires
        0 <= i < s.len(),
    ensures
        raw_score(s.remove(i)) == raw_score(s) - weight_spec(s[i]),
    decreases s.len(),
{
    if i == s.len() - 1 {
        assert(s.remove(i) =~= s.drop_last());
    } else {
        let t = s.drop_last();
        lemma_raw_score_remove(t, i);
        assert(s.remove(i).drop_last() =~= t.remove(i));
        assert(s.remove(i).last() == s.last());
    }
}

/// The raw score of a hand depends only on which cards it holds, not
/// on their order.
pub proof fn lemma_raw_score_permutation(s1: Seq<Card>, s2: Seq<Card>)
    requires
        s1.to_multiset() == s2.to_multiset(),
    ensures
        raw_score(s1) == raw_score(s2),
    decreases s1.len(),
{
    broadcast use vstd::seq_lib::group_to_multiset_ensures;

    vstd::seq_lib::to_multiset_len(s1);
    vstd::seq_lib::to_multiset_len(s2);
    assert(s1.len() == s2.len());
    if s1.len() > 0 {
        let x = s1.last();
        assert(s1.contains(x));
        assert(s2.to_multiset().count(x) > 0);
        assert(s2.contains(x));
        let j = choose|j: int| 0 <= j < s2.len() && s2[j] == x;
        assert(s1.remove(s1.len() - 1).to_multiset() == s1.to_multiset().remove(x));
        assert(s2.remove(j).to_multiset() == s2.to_multiset().remove(x));
        assert(s1.remove(s1.len() - 1) =~= s1.drop_last());
        lemma_raw_score_permutation(s1.drop_last(), s2.remove(j));
        lemma_raw_score_remove(s2, j);
    }
}

/// A rank is in a hand's rank set exactly when some card of the hand
/// carries it; the rank set is finite and no larger than the hand.
pub proof fn lemma_ranks_of_membership(s: Seq<Card>)
    ensures
        ranks_of(s).finite(),
        ranks_of(s).len() <= s.len(),
        forall|v: Value|
            ranks_of(s).contains(v) <==> exists|i: int| 0 <= i < s.len() && #[trigger] s[i].value
                == v,
    decreases s.len(),
{
    if s.len() > 0 {
        lemma_ranks_of_membership(s.drop_last());
        assert forall|v: Value| ranks_of(s).contains(v) implies exists|i: int|
            0 <= i < s.len() && #[trigger] s[i].value == v by {
            if v == s.last().value {
                assert(s[s.len() - 1].value == v);
            } else {
                let i = choose|i: int|
                    0 <= i < s.drop_last().len() && #[trigger] s.drop_last()[i].value == v;
                assert(s[i].value == v);
            }
        }
        assert forall|v: Value|
            (exists|i: int| 0 <= i < s.len() && #[trigger] s[i].value == v) implies ranks_of(
            s,
        ).contains(v) by {
            let i = choose|i: int| 0 <= i < s.len() && #[trigger] s[i].value == v;
            if i < s.len() - 1 {
                assert(s.drop_last()[i].value == v);
            }
        }
    }
}

/// The set of ranks of a hand depends only on which cards it holds,
/// not on their order.
pub proof fn lemma_ranks_of_permutation(s1: Seq<Card>, s2: Seq<Card>)
    requires
        s1.to_multiset() == s2.to_multiset(),
    ensures
        ranks_of(s1) == ranks_of(s2),
{
    broadcast use vstd::seq_lib::group_to_multiset_ensures;

    lemma_ranks_of_membership(s1);
    lemma_ranks_of_membership(s2);
    assert forall|v: Value| ranks_of(s1).contains(v) <==> ranks_of(s2).contains(v) by {
        if ranks_of(s1).contains(v) {
            let i = choose|i: int| 0 <= i < s1.len() && #[trigger] s1[i].value == v;
            assert(s1.contains(s1[i]));
            assert(s2.to_multiset().count(s1[i]) > 0);
            assert(s2.contains(s1[i]));
            let j = choose|j: int| 0 <= j < s2.len() && s2[j] == s1[i];
            assert(s2[j].value == v);
        }
        if ranks_of(s2).contains(v) {
            let i = choose|i: int| 0 <= i < s2.len() && #[trigger] s2[i].value == v;
            assert(s2.contains(s2[i]));
            assert(s1.to_multiset().count(s2[i]) > 0);
            assert(s1.contains(s2[i]));
            let j = choose|j: int| 0 <= j < s1.len() && s1[j] == s2[i];
            assert(s1[j].value == v);
        }
    }
    assert(ranks_of(s1) =~= ranks_of(s2));
}

/// Scoring is invariant under reordering of the hand: two hands that
/// hold the same cards in any order have the same exact score, both
/// numerator and denominator. Sorting a hand before scoring therefore
/// cannot change its score.
pub proof fn lemma_score_permutation(h1: Seq<Card>, h2: Seq<Card>)
    requires
        h1.to_multiset() == h2.to_multiset(),
    ensures
        score_num(h1) == score_num(h2),
        score_den(h1) == score_den(h2),
{
    vstd::seq_lib::to_multiset_len(h1);
    vstd::seq_lib::to_multiset_len(h2);
    assert(h1.len() == h2.len());
    lemma_raw_score_permutation(h1, h2);
    lemma_ranks_of_permutation(h1, h2);
}


} // verus!
