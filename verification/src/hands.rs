//! The hands that can be tried: every selection of one or more of the
//! positions that hold cards.

use vstd::arithmetic::power2::{lemma2_to64, lemma_pow2_unfold, pow2};
use vstd::prelude::*;
use crate::board::{lemma_at_most_nine, Position};

verus! {

/// The act of putting the position at the end of a hand.
pub open spec fn with_position(position: Position) -> spec_fn(Seq<Position>) -> Seq<Position> {
    |hand: Seq<Position>| hand.push(position)
}

/// Every selection of positions from a row, each in the order of the row.
/// The selections that stop short of the last position come first, the empty
/// selection first of all; the same selections with the last position added
/// follow them.
pub open spec fn selections(positions: Seq<Position>) -> Seq<Seq<Position>>
    decreases positions.len(),
{
    if positions.len() == 0 {
        seq![Seq::empty()]
    } else {
        let fewer = selections(positions.drop_last());
        fewer + fewer.map_values(with_position(positions.last()))
    }
}

/// Every selection of one or more positions from a row.
pub open spec fn hands(positions: Seq<Position>) -> Seq<Seq<Position>> {
    selections(positions).skip(1)
}

/// The property of lying in a set of positions.
pub open spec fn lies_in(keep: Set<Position>) -> spec_fn(Position) -> bool {
    |p: Position| keep.contains(p)
}

/// The positions of a row that lie in a set, in the order of the row.
pub open spec fn chosen(positions: Seq<Position>, keep: Set<Position>) -> Seq<Position> {
    positions.filter(lies_in(keep))
}

/// A list of hands as sequences of positions.
pub open spec fn hand_views(hands: Seq<Vec<Position>>) -> Seq<Seq<Position>> {
    hands.map_values(|hand: Vec<Position>| hand@)
}

/// The selections of a row begin with the empty selection.
pub proof fn lemma_selections_start_empty(positions: Seq<Position>)
    ensures
        selections(positions).len() >= 1,
        selections(positions)[0] == Seq::<Position>::empty(),
    decreases positions.len(),
{
    if positions.len() > 0 {
        lemma_selections_start_empty(positions.drop_last());
    }
}

/// Leaving positions out of a row without duplicates gives no duplicates.
pub proof fn lemma_filter_distinct(positions: Seq<Position>, keep: spec_fn(Position) -> bool)
    requires
        positions.no_duplicates(),
    ensures
        positions.filter(keep).no_duplicates(),
        forall|i: int|
            0 <= i < positions.filter(keep).len() ==> positions.contains(
                #[trigger] positions.filter(keep)[i],
            ),
    decreases positions.len(),
{
    reveal(Seq::filter);
    if positions.len() > 0 {
        let rest = positions.drop_last();
        lemma_filter_distinct(rest, keep);
        assert forall|i: int| 0 <= i < rest.filter(keep).len() implies positions.contains(
            #[trigger] rest.filter(keep)[i],
        ) && rest.filter(keep)[i] != positions.last() by {
            let at = choose|at: int| 0 <= at < rest.len() && rest[at] == rest.filter(keep)[i];
            assert(positions[at] == rest.filter(keep)[i]);
        }
        if keep(positions.last()) {
            assert(positions[positions.len() - 1] == positions.last());
        }
    }
}

/// A row of so many positions has two to the power of so many selections.
pub proof fn lemma_selections_count(positions: Seq<Position>)
    ensures
        selections(positions).len() == pow2(positions.len()),
    decreases positions.len(),
{
    if positions.len() == 0 {
        lemma2_to64();
    } else {
        lemma_selections_count(positions.drop_last());
        lemma_pow2_unfold(positions.len());
    }
}

/// A row of different positions has no more than 511 hands, and all the
/// hands of a row are selections of one position or more.
pub proof fn lemma_hands_count(positions: Seq<Position>)
    requires
        positions.no_duplicates(),
    ensures
        hands(positions).len() == pow2(positions.len()) - 1,
        hands(positions).len() <= 511,
        forall|k: int|
            0 <= k < hands(positions).len() ==> (#[trigger] hands(positions)[k]).len() > 0,
{
    lemma_selections_count(positions);
    lemma_selections_start_empty(positions);
    lemma_at_most_nine(positions);
    lemma2_to64();
    lemma_pow2_grows(positions.len(), 9);
    assert forall|k: int| 0 <= k < hands(positions).len() implies (#[trigger] hands(
        positions,
    )[k]).len() > 0 by {
        lemma_selection_nonempty(positions, k + 1);
    }
}

/// Two to a power is no more than two to a higher power.
proof fn lemma_pow2_grows(low: nat, high: nat)
    requires
        low <= high,
    ensures
        pow2(low) <= pow2(high),
    decreases high - low,
{
    if low < high {
        lemma_pow2_grows(low, (high - 1) as nat);
        lemma_pow2_unfold(high);
    }
}

/// Of the selections of a row only the first is empty.
pub proof fn lemma_selection_nonempty(positions: Seq<Position>, k: int)
    requires
        0 < k < selections(positions).len(),
    ensures
        selections(positions)[k].len() > 0,
    decreases positions.len(),
{
    if positions.len() > 0 {
        let fewer = selections(positions.drop_last());
        lemma_selections_start_empty(positions.drop_last());
        if k < fewer.len() {
            lemma_selection_nonempty(positions.drop_last(), k);
        } else {
            assert(selections(positions)[k] == fewer[k - fewer.len()].push(positions.last()));
        }
    }
}

/// Every choice of positions from a row is among the selections of the row.
pub proof fn lemma_selections_complete(positions: Seq<Position>, keep: Set<Position>)
    ensures
        selections(positions).contains(chosen(positions, keep)),
    decreases positions.len(),
{
    reveal(Seq::filter);
    if positions.len() == 0 {
        assert(selections(positions)[0] == chosen(positions, keep));
    } else {
        let fewer = selections(positions.drop_last());
        let last = positions.last();
        lemma_selections_complete(positions.drop_last(), keep);
        let k = choose|k: int|
            0 <= k < fewer.len() && fewer[k] == chosen(positions.drop_last(), keep);
        if keep.contains(last) {
            assert(selections(positions)[fewer.len() + k] == fewer[k].push(last));
        } else {
            assert(selections(positions)[k] == fewer[k]);
        }
    }
}

/// Every choice of one or more positions from a row is among the hands of
/// the row.
pub proof fn lemma_hands_complete(positions: Seq<Position>, keep: Set<Position>)
    requires
        chosen(positions, keep).len() > 0,
    ensures
        hands(positions).contains(chosen(positions, keep)),
{
    lemma_selections_complete(positions, keep);
    lemma_selections_start_empty(positions);
    let k = choose|k: int|
        0 <= k < selections(positions).len() && selections(positions)[k] == chosen(
            positions,
            keep,
        );
    assert(hands(positions)[k - 1] == selections(positions)[k]);
}

/// Two sets that hold the same positions of a row choose the same positions
/// from it.
proof fn lemma_chosen_alike(positions: Seq<Position>, keep: Set<Position>, other: Set<Position>)
    requires
        forall|i: int|
            0 <= i < positions.len() ==> (keep.contains(#[trigger] positions[i])
                <==> other.contains(positions[i])),
    ensures
        chosen(positions, keep) == chosen(positions, other),
    decreases positions.len(),
{
    reveal(Seq::filter);
    if positions.len() > 0 {
        lemma_chosen_alike(positions.drop_last(), keep, other);
    }
}

/// Each selection of a row without duplicates holds positions of the row
/// only, and is the choice from the row by the set of its own positions.
pub proof fn lemma_selection_is_chosen(positions: Seq<Position>, k: int)
    requires
        positions.no_duplicates(),
        0 <= k < selections(positions).len(),
    ensures
        forall|i: int|
            0 <= i < selections(positions)[k].len() ==> positions.contains(
                #[trigger] selections(positions)[k][i],
            ),
        selections(positions)[k] == chosen(positions, selections(positions)[k].to_set()),
    decreases positions.len(),
{
    reveal(Seq::filter);
    let hand = selections(positions)[k];
    if positions.len() == 0 {
        assert(hand =~= Seq::<Position>::empty());
    } else {
        let rest = positions.drop_last();
        let last = positions.last();
        let fewer = selections(rest);
        let j = if k < fewer.len() {
            k
        } else {
            k - fewer.len()
        };
        lemma_selection_is_chosen(rest, j);
        assert forall|i: int| 0 <= i < fewer[j].len() implies positions.contains(
            #[trigger] fewer[j][i],
        ) && fewer[j][i] != last by {
            let at = choose|at: int| 0 <= at < rest.len() && rest[at] == fewer[j][i];
            assert(positions[at] == fewer[j][i]);
        }
        if k < fewer.len() {
            assert(hand == fewer[j]);
            assert(!hand.to_set().contains(last)) by {
                if hand.contains(last) {
                    let i = choose|i: int| 0 <= i < hand.len() && hand[i] == last;
                    assert(fewer[j][i] != last);
                }
            }
        } else {
            assert(hand == fewer[j].push(last));
            assert(hand[hand.len() - 1] == last);
            assert(hand.to_set().contains(last));
            assert forall|i: int| 0 <= i < hand.len() implies positions.contains(
                #[trigger] hand[i],
            ) by {
                if i < fewer[j].len() {
                    assert(hand[i] == fewer[j][i]);
                } else {
                    assert(positions[positions.len() - 1] == last);
                }
            }
            assert forall|i: int| 0 <= i < rest.len() implies (hand.to_set().contains(
                #[trigger] rest[i],
            ) <==> fewer[j].to_set().contains(rest[i])) by {
                assert(rest[i] != last);
                if hand.contains(rest[i]) {
                    let at = choose|at: int| 0 <= at < hand.len() && hand[at] == rest[i];
                    assert(fewer[j][at] == rest[i]);
                }
                if fewer[j].contains(rest[i]) {
                    let at = choose|at: int| 0 <= at < fewer[j].len() && fewer[j][at] == rest[i];
                    assert(hand[at] == rest[i]);
                }
            }
            lemma_chosen_alike(rest, hand.to_set(), fewer[j].to_set());
        }
    }
}

/// The number of selections of a row of no more than nine positions.
pub fn count_selections(positions: &Vec<Position>) -> (count: usize)
    requires
        positions@.len() <= 9,
    ensures
        count == selections(positions@).len(),
        count == pow2(positions@.len()),
        1 <= count <= 512,
{
    let mut count: usize = 1;
    let mut i: usize = 0;
    proof {
        lemma2_to64();
    }
    while i < positions.len()
        invariant
            i <= positions.len() <= 9,
            count == pow2(i as nat),
            count <= 512,
        decreases positions.len() - i,
    {
        proof {
            lemma_pow2_unfold((i + 1) as nat);
            lemma_pow2_grows((i + 1) as nat, 9);
            lemma2_to64();
        }
        count = count * 2;
        i += 1;
    }
    proof {
        lemma_selections_count(positions@);
    }
    count
}

/// A multiple of a number is the double multiple by the half, and the
/// number once more where the factor is odd.
proof fn lemma_halves(factor: int, unit: int)
    requires
        factor >= 0,
    ensures
        factor % 2 == 1 ==> factor * unit == (factor / 2) * (2 * unit) + unit,
        factor % 2 == 0 ==> factor * unit == (factor / 2) * (2 * unit),
{
    let half = factor / 2;
    if factor % 2 == 1 {
        assert(factor == 2 * half + 1);
        assert((2 * half + 1) * unit == half * (2 * unit) + unit) by (nonlinear_arith);
    } else {
        assert(factor == 2 * half);
        assert((2 * half) * unit == half * (2 * unit)) by (nonlinear_arith);
    }
}

/// The selection of a row that has the given number among its selections:
/// it holds the first position where the number is odd, the second where
/// its half is odd, and so on.
pub fn selection_at(positions: &Vec<Position>, number: usize) -> (hand: Vec<Position>)
    requires
        number < selections(positions@).len(),
    ensures
        hand@ == selections(positions@)[number as int],
{
    let mut hand: Vec<Position> = Vec::new();
    let mut rest = number;
    let ghost mut low: int = 0;
    let mut i: usize = 0;
    proof {
        lemma2_to64();
        assert(positions@.take(0) =~= Seq::<Position>::empty());
    }
    while i < positions.len()
        invariant
            i <= positions.len(),
            number == rest * pow2(i as nat) + low,
            0 <= low < pow2(i as nat),
            hand@ == selections(positions@.take(i as int))[low],
        decreases positions.len() - i,
    {
        let ghost fewer = selections(positions@.take(i as int));
        let ghost half = rest / 2;
        proof {
            lemma_pow2_unfold((i + 1) as nat);
            lemma_selections_count(positions@.take(i as int));
            assert(positions@.take(i + 1).drop_last() =~= positions@.take(i as int));
            assert(positions@.take(i + 1).last() == positions@[i as int]);
            lemma_halves(rest as int, pow2(i as nat) as int);
        }
        if rest % 2 == 1 {
            hand.push(positions[i]);
            proof {
                assert(selections(positions@.take(i + 1))[fewer.len() + low] == fewer[low].push(
                    positions@[i as int],
                ));
                low = low + pow2(i as nat);
            }
        } else {
            proof {
                assert(selections(positions@.take(i + 1))[low] == fewer[low]);
            }
        }
        rest = rest / 2;
        i += 1;
    }
    proof {
        assert(positions@.take(i as int) =~= positions@);
        lemma_selections_count(positions@);
        assert(rest == 0) by (nonlinear_arith)
            requires
                number == rest * pow2(i as nat) + low,
                0 <= low,
                number < pow2(i as nat),
                rest >= 0,
        ;
    }
    hand
}

/// Copies a hand.
fn copy_hand(hand: &Vec<Position>) -> (copy: Vec<Position>)
    ensures
        copy@ == hand@,
{
    let mut copy: Vec<Position> = Vec::new();
    let mut k: usize = 0;
    while k < hand.len()
        invariant
            k <= hand.len(),
            copy@ == hand@.take(k as int),
        decreases hand.len() - k,
    {
        copy.push(hand[k]);
        proof {
            assert(hand@.take(k + 1) =~= hand@.take(k as int).push(hand@[k as int]));
        }
        k += 1;
    }
    proof {
        assert(hand@.take(k as int) =~= hand@);
    }
    copy
}

/// Adds to a list of hands a copy of each of its hands with the position put
/// at its end.
fn combine(all: &mut Vec<Vec<Position>>, position: Position)
    ensures
        hand_views(final(all)@) == hand_views(old(all)@) + hand_views(old(all)@).map_values(
            with_position(position),
        ),
{
    let ghost extended = with_position(position);
    let before = all.len();
    let mut k: usize = 0;
    while k < before
        invariant
            k <= before,
            before == old(all)@.len(),
            extended == with_position(position),
            all@.len() == before + k,
            hand_views(all@) == hand_views(old(all)@) + hand_views(old(all)@).take(
                k as int,
            ).map_values(extended),
        decreases before - k,
    {
        let ghost so_far = all@;
        let mut hand = copy_hand(&all[k]);
        hand.push(position);
        proof {
            assert(hand_views(so_far)[k as int] == so_far[k as int]@);
            assert(hand_views(old(all)@)[k as int] == so_far[k as int]@);
        }
        all.push(hand);
        proof {
            assert(hand_views(all@) =~= hand_views(so_far).push(hand@));
            assert(hand_views(old(all)@).take(k + 1).map_values(extended) =~= hand_views(
                old(all)@,
            ).take(k as int).map_values(extended).push(hand@));
            assert(hand_views(all@) =~= hand_views(old(all)@) + hand_views(old(all)@).take(
                k + 1,
            ).map_values(extended));
        }
        k += 1;
    }
    proof {
        assert(hand_views(old(all)@).take(k as int) =~= hand_views(old(all)@));
    }
}

/// Find all combinations of one or more of a set of positions
pub fn combination(positions: &Vec<Position>) -> (all: Vec<Vec<Position>>)
    ensures
        hand_views(all@) == hands(positions@),
{
    let mut all: Vec<Vec<Position>> = Vec::new();
    all.push(Vec::new());
    proof {
        assert(hand_views(all@) =~= selections(positions@.take(0)));
    }
    let mut i: usize = 0;
    while i < positions.len()
        invariant
            i <= positions.len(),
            hand_views(all@) == selections(positions@.take(i as int)),
        decreases positions.len() - i,
    {
        proof {
            assert(positions@.take(i + 1).drop_last() =~= positions@.take(i as int));
            assert(positions@.take(i + 1).last() == positions@[i as int]);
        }
        combine(&mut all, positions[i]);
        i += 1;
    }
    proof {
        assert(positions@.take(i as int) =~= positions@);
        lemma_selections_start_empty(positions@);
    }
    let ghost whole = all@;
    all.remove(0);
    proof {
        assert(hand_views(all@) =~= hand_views(whole).skip(1));
    }
    all
}

} // verus!
