//! Why the limit on compression pointers refuses nothing that could be
//! decoded: a chain of more pointers than the buffer has bytes runs in a
//! circle.

use crate::common::dns_reader::in_bounds;
use crate::common::ParseError;
use crate::dns::label::{
    lemma_more_hops_same_result, name_parsed, name_parsed_within, pointer_target, segments_parsed,
    POINTER_MARK,
};
use vstd::prelude::*;
use vstd::set_lib::{lemma_int_range, lemma_len_subset, set_int_range};
use vstd::utf8::valid_utf8;

verus! {

/// The place that the first pointer names which decoding meets from `pos`
/// on, if it meets one before the name ends or an error stops it.
pub open spec fn first_pointer(buf: Seq<u8>, pos: int) -> Option<int>
    decreases buf.len() - pos,
{
    if !in_bounds(buf.len(), pos, 1) || buf[pos] == 0 {
        None
    } else if buf[pos] >= POINTER_MARK {
        if in_bounds(buf.len(), pos + 1, 1) {
            Some(pointer_target(buf[pos], buf[pos + 1]))
        } else {
            None
        }
    } else {
        let length = buf[pos] as nat;
        if in_bounds(buf.len(), pos + 1, length) && valid_utf8(
            buf.subrange(pos + 1, pos + 1 + length),
        ) {
            first_pointer(buf, pos + 1 + length)
        } else {
            None
        }
    }
}

/// The place where decoding stands when it has followed `hops` pointers
/// from `pos` on, if there are as many to follow.
pub open spec fn after_hops(buf: Seq<u8>, pos: int, hops: nat) -> Option<int>
    decreases hops,
{
    if hops == 0 {
        Some(pos)
    } else {
        match first_pointer(buf, pos) {
            Some(target) => after_hops(buf, target, (hops - 1) as nat),
            None => None,
        }
    }
}

/// Decoding is refused for its pointers exactly when there is one pointer
/// more to follow than the limit allows.
pub proof fn lemma_refused_iff_one_more_hop(buf: Seq<u8>, pos: int, hops: nat)
    ensures
        segments_parsed(buf, pos, hops).outcome == Err::<Seq<Seq<char>>, ParseError>(
            ParseError::PointerLoop,
        ) <==> after_hops(buf, pos, hops + 1) is Some,
    decreases hops, buf.len() - pos,
{
    reveal_with_fuel(after_hops, 2);
    if !in_bounds(buf.len(), pos, 1) || buf[pos] == 0 {
    } else if buf[pos] >= POINTER_MARK {
        if in_bounds(buf.len(), pos + 1, 1) && hops > 0 {
            let target = pointer_target(buf[pos], buf[pos + 1]);
            lemma_refused_iff_one_more_hop(buf, target, (hops - 1) as nat);
        }
    } else {
        let length = buf[pos] as nat;
        if in_bounds(buf.len(), pos + 1, length) && valid_utf8(
            buf.subrange(pos + 1, pos + 1 + length),
        ) {
            lemma_refused_iff_one_more_hop(buf, pos + 1 + length, hops);
        }
    }
}

/// Where decoding is refused for its pointers it leaves the cursor behind
/// the first pointer, whatever the limit.
pub proof fn lemma_refused_at_one_place(buf: Seq<u8>, pos: int, hops: nat, more: nat)
    requires
        segments_parsed(buf, pos, hops).outcome == Err::<Seq<Seq<char>>, ParseError>(
            ParseError::PointerLoop,
        ),
        segments_parsed(buf, pos, more).outcome == Err::<Seq<Seq<char>>, ParseError>(
            ParseError::PointerLoop,
        ),
    ensures
        segments_parsed(buf, pos, hops) == segments_parsed(buf, pos, more),
    decreases buf.len() - pos,
{
    if !in_bounds(buf.len(), pos, 1) || buf[pos] == 0 {
    } else if buf[pos] >= POINTER_MARK {
    } else {
        let length = buf[pos] as nat;
        if in_bounds(buf.len(), pos + 1, length) && valid_utf8(
            buf.subrange(pos + 1, pos + 1 + length),
        ) {
            lemma_refused_at_one_place(buf, pos + 1 + length, hops, more);
        }
    }
}

/// A place from which a pointer can be reached lies inside the buffer, and
/// a pointer names no place before the buffer.
pub proof fn lemma_first_pointer_bounds(buf: Seq<u8>, pos: int)
    requires
        0 <= pos,
        first_pointer(buf, pos) is Some,
    ensures
        pos < buf.len(),
        0 <= first_pointer(buf, pos)->0,
    decreases buf.len() - pos,
{
    if buf[pos] < POINTER_MARK {
        lemma_first_pointer_bounds(buf, pos + 1 + buf[pos]);
    }
}

/// Following `a + b` pointers is following `a` and then `b`.
pub proof fn lemma_hops_add(buf: Seq<u8>, pos: int, a: nat, b: nat)
    ensures
        after_hops(buf, pos, a + b) == match after_hops(buf, pos, a) {
            Some(there) => after_hops(buf, there, b),
            None => None,
        },
    decreases a,
{
    if a > 0 {
        if let Some(target) = first_pointer(buf, pos) {
            lemma_hops_add(buf, target, (a - 1) as nat, b);
            assert(a - 1 + b == a + b - 1);
        }
    }
}

/// Where `more` pointers can be followed, so can fewer, and each place on
/// the way lies at or behind the start of the buffer.
pub proof fn lemma_fewer_hops(buf: Seq<u8>, pos: int, fewer: nat, more: nat)
    requires
        0 <= pos,
        fewer <= more,
        after_hops(buf, pos, more) is Some,
    ensures
        after_hops(buf, pos, fewer) is Some,
        0 <= after_hops(buf, pos, fewer)->0,
    decreases fewer,
{
    if fewer > 0 {
        let target = first_pointer(buf, pos)->0;
        lemma_first_pointer_bounds(buf, pos);
        lemma_fewer_hops(buf, target, (fewer - 1) as nat, (more - 1) as nat);
    }
}

/// Among more numbers than `bound`, all of them at least 0 and below
/// `bound`, two are equal.
pub proof fn lemma_two_are_equal(numbers: Seq<int>, bound: nat) -> (pair: (int, int))
    requires
        numbers.len() > bound,
        forall|i: int| 0 <= i < numbers.len() ==> 0 <= #[trigger] numbers[i] < bound,
    ensures
        0 <= pair.0 < pair.1 < numbers.len(),
        numbers[pair.0] == numbers[pair.1],
{
    if numbers.no_duplicates() {
        numbers.unique_seq_to_set();
        lemma_int_range(0, bound as int);
        assert(numbers.to_set().subset_of(set_int_range(0, bound as int))) by {
            assert forall|x: int| numbers.to_set().contains(x) implies set_int_range(
                0,
                bound as int,
            ).contains(x) by {
                let i = choose|i: int| 0 <= i < numbers.len() && numbers[i] == x;
                assert(0 <= numbers[i] < bound);
            }
        }
        lemma_len_subset(numbers.to_set(), set_int_range(0, bound as int));
        assert(false);
    }
    let (i, j) = choose|i: int, j: int|
        0 <= i < numbers.len() && 0 <= j < numbers.len() && i != j && numbers[i] == numbers[j];
    if i < j {
        (i, j)
    } else {
        (j, i)
    }
}

/// From a place to which pointers lead back there is no end of pointers to
/// follow.
pub proof fn lemma_round_and_round(buf: Seq<u8>, pos: int, round: nat, hops: nat)
    requires
        0 <= pos,
        round > 0,
        after_hops(buf, pos, round) == Some(pos),
    ensures
        after_hops(buf, pos, hops) is Some,
    decreases hops,
{
    if hops < round {
        lemma_fewer_hops(buf, pos, hops, round);
    } else {
        lemma_round_and_round(buf, pos, round, (hops - round) as nat);
        lemma_hops_add(buf, pos, round, (hops - round) as nat);
        assert(round + (hops - round) == hops);
    }
}

/// Where one pointer more can be followed than the buffer has bytes, two
/// of the places passed are the same, and there is no end of pointers to
/// follow.
pub proof fn lemma_long_chain_is_a_circle(buf: Seq<u8>, pos: int, hops: nat)
    requires
        0 <= pos,
        after_hops(buf, pos, buf.len() + 1) is Some,
    ensures
        after_hops(buf, pos, hops) is Some,
{
    let len = buf.len();
    let places = Seq::new(len + 1, |k: int| after_hops(buf, pos, k as nat)->0);
    assert forall|k: int| 0 <= k < places.len() implies 0 <= #[trigger] places[k] < len by {
        lemma_fewer_hops(buf, pos, k as nat, len + 1);
        lemma_fewer_hops(buf, pos, (k + 1) as nat, len + 1);
        lemma_hops_add(buf, pos, k as nat, 1);
        reveal_with_fuel(after_hops, 2);
        lemma_first_pointer_bounds(buf, places[k]);
    }
    let (i, j) = lemma_two_are_equal(places, len);
    let here = places[i];
    let round = (j - i) as nat;
    lemma_fewer_hops(buf, pos, i as nat, len + 1);
    lemma_fewer_hops(buf, pos, j as nat, len + 1);
    lemma_hops_add(buf, pos, i as nat, round);
    assert(i + round == j);
    assert(after_hops(buf, here, round) == Some(here));
    if hops <= i {
        lemma_fewer_hops(buf, pos, hops, len + 1);
    } else {
        lemma_round_and_round(buf, here, round, (hops - i) as nat);
        lemma_hops_add(buf, pos, i as nat, (hops - i) as nat);
        assert(i + (hops - i) == hops);
    }
}

/// The limit on pointers is no limit. Decoding follows as many pointers one
/// after another as the buffer has bytes; under any greater limit it yields
/// the same. So a name is refused with [`ParseError::PointerLoop`] only
/// where its pointers run in a circle and decoding without a limit would
/// never end.
pub proof fn lemma_hop_limit_is_no_limit(buf: Seq<u8>, pos: int, more: nat)
    requires
        0 <= pos,
        buf.len() <= more,
    ensures
        segments_parsed(buf, pos, more) == segments_parsed(buf, pos, buf.len()),
        name_parsed_within(buf, pos, more) == name_parsed(buf, pos),
{
    let refused = Err::<Seq<Seq<char>>, ParseError>(ParseError::PointerLoop);
    if segments_parsed(buf, pos, buf.len()).outcome == refused {
        lemma_refused_iff_one_more_hop(buf, pos, buf.len());
        lemma_long_chain_is_a_circle(buf, pos, more + 1);
        lemma_refused_iff_one_more_hop(buf, pos, more);
        lemma_refused_at_one_place(buf, pos, buf.len(), more);
    } else {
        lemma_more_hops_same_result(buf, pos, buf.len(), more);
    }
}

} // verus!
