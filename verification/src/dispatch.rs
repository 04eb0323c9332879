//! Dispatchers: the policies by which a response group hands out its
//! responses.
use crate::chance;
use crate::num;
use crate::soft;
use rand::rngs::ThreadRng;
use vstd::prelude::*;

verus! {

/// The bit pattern of `-1.0`.
pub const NEG_ONE: u32 = 0xbf80_0000;

/// The sum of a list of weights, added up from the left starting at zero.
pub open spec fn total_of(weights: Seq<u32>) -> u32
    decreases weights.len(),
{
    if weights.len() == 0 {
        num::ZERO
    } else {
        soft::sum_bits(total_of(weights.drop_last()), weights.last())
    }
}

/// No weight is negative or a NaN.
pub open spec fn all_non_negative(weights: Seq<u32>) -> bool {
    forall|i: int| 0 <= i < weights.len() ==> num::le(num::ZERO, #[trigger] weights[i])
}

/// A weighted pick is possible: no weight is negative or a NaN, and the
/// total is positive and finite.
pub open spec fn pickable(weights: Seq<u32>) -> bool {
    &&& all_non_negative(weights)
    &&& num::lt(num::ZERO, total_of(weights))
    &&& num::is_finite(total_of(weights))
}

/// The number in `[1.0, 2.0)` whose fraction bits are the upper bits of a
/// draw.
pub open spec fn unit_of(draw: u32) -> u32 {
    (num::ONE + draw / 512) as u32
}

/// The point on the scale from zero to the total that a draw selects: the
/// total times a fraction in `[0.0, 1.0)`.
pub open spec fn threshold(total: u32, draw: u32) -> u32 {
    soft::product_bits(total, soft::sum_bits(unit_of(draw), NEG_ONE))
}

/// The first place from `i` on with a positive weight whose running total
/// lies above the point.
pub open spec fn first_above(weights: Seq<u32>, point: u32, i: int) -> Option<int>
    decreases weights.len() - i,
{
    if i < 0 || i >= weights.len() {
        None
    } else if num::lt(num::ZERO, weights[i]) && num::lt(point, total_of(weights.take(i + 1))) {
        Some(i)
    } else {
        first_above(weights, point, i + 1)
    }
}

/// The last place before `n` with a positive weight.
pub open spec fn last_positive(weights: Seq<u32>, n: int) -> Option<int>
    decreases n,
{
    if n <= 0 || n > weights.len() {
        None
    } else if num::lt(num::ZERO, weights[n - 1]) {
        Some(n - 1)
    } else {
        last_positive(weights, n - 1)
    }
}

/// The place that a draw picks from a list of weights, each place in
/// proportion to its weight: the first place with a positive weight whose
/// running total lies above the point that the draw selects, and the last
/// place with a positive weight if rounding leaves none. Nothing is picked
/// when the weights do not allow a pick.
pub open spec fn weighted_choice(weights: Seq<u32>, draw: u32) -> Option<int> {
    if !pickable(weights) {
        None
    } else {
        match first_above(weights, threshold(total_of(weights), draw), 0) {
            Some(i) => Some(i),
            None => last_positive(weights, weights.len() as int),
        }
    }
}

/// A pick lands on a place of the list, and that place has a positive
/// weight.
pub proof fn lemma_weighted_choice_in_range(weights: Seq<u32>, draw: u32)
    ensures
        match weighted_choice(weights, draw) {
            Some(i) => 0 <= i < weights.len() && num::lt(num::ZERO, weights[i]),
            None => true,
        },
{
    if pickable(weights) {
        lemma_first_above(weights, threshold(total_of(weights), draw), 0);
        lemma_last_positive(weights, weights.len() as int);
    }
}

proof fn lemma_first_above(weights: Seq<u32>, point: u32, i: int)
    requires
        0 <= i,
    ensures
        match first_above(weights, point, i) {
            Some(k) => i <= k < weights.len() && num::lt(num::ZERO, weights[k]),
            None => true,
        },
    decreases weights.len() - i,
{
    if i < weights.len() {
        lemma_first_above(weights, point, i + 1);
    }
}

proof fn lemma_last_positive(weights: Seq<u32>, n: int)
    ensures
        match last_positive(weights, n) {
            Some(k) => 0 <= k < n && k < weights.len() && num::lt(num::ZERO, weights[k]),
            None => true,
        },
    decreases n,
{
    if 0 < n <= weights.len() {
        lemma_last_positive(weights, n - 1);
    }
}

/// Picks a place from a list of weights by a draw.
pub fn weighted_pick(weights: &Vec<u32>, draw: u32) -> (r: Option<usize>)
    ensures
        match r {
            Some(i) => weighted_choice(weights@, draw) == Some(i as int),
            None => weighted_choice(weights@, draw).is_none(),
        },
{
    let n = weights.len();
    let mut sums: Vec<u32> = Vec::new();
    let mut total: u32 = num::ZERO;
    let mut valid = true;
    let mut i: usize = 0;
    assert(weights@.take(0) =~= Seq::<u32>::empty());
    while i < n
        invariant
            i <= n,
            n == weights@.len(),
            total == total_of(weights@.take(i as int)),
            sums@.len() == i,
            forall|j: int| 0 <= j < i ==> #[trigger] sums@[j] == total_of(weights@.take(j + 1)),
            valid == all_non_negative(weights@.take(i as int)),
        decreases n - i,
    {
        let w = weights[i];
        proof {
            assert(weights@.take(i + 1).drop_last() =~= weights@.take(i as int));
            assert(weights@.take(i + 1).last() == w);
            if all_non_negative(weights@.take(i + 1)) {
                assert forall|j: int| 0 <= j < i implies num::le(
                    num::ZERO,
                    #[trigger] weights@.take(i as int)[j],
                ) by {
                    assert(weights@.take(i + 1)[j] == weights@[j]);
                }
                assert(weights@.take(i + 1)[i as int] == w);
            }
            if all_non_negative(weights@.take(i as int)) && num::le(num::ZERO, w) {
                assert forall|j: int| 0 <= j < i + 1 implies num::le(
                    num::ZERO,
                    #[trigger] weights@.take(i + 1)[j],
                ) by {
                    if j < i {
                        assert(weights@.take(i as int)[j] == weights@[j]);
                    }
                }
            }
        }
        if !num::check_le(num::ZERO, w) {
            valid = false;
        }
        total = soft::add_bits(total, w);
        sums.push(total);
        i += 1;
    }
    assert(weights@.take(n as int) =~= weights@);
    if !valid || !num::check_lt(num::ZERO, total) || !num::check_is_finite(total) {
        return None;
    }
    let unit: u32 = num::ONE + draw / 512;
    let point = soft::mul_bits(total, soft::add_bits(unit, NEG_ONE));
    let mut k: usize = 0;
    while k < n
        invariant
            k <= n,
            n == weights@.len(),
            sums@.len() == n,
            forall|j: int| 0 <= j < n ==> #[trigger] sums@[j] == total_of(weights@.take(j + 1)),
            first_above(weights@, point, 0) == first_above(weights@, point, k as int),
            pickable(weights@),
            point == threshold(total_of(weights@), draw),
        decreases n - k,
    {
        if num::check_lt(num::ZERO, weights[k]) && num::check_lt(point, sums[k]) {
            return Some(k);
        }
        k += 1;
    }
    let mut m: usize = n;
    while m > 0
        invariant
            m <= n,
            n == weights@.len(),
            last_positive(weights@, n as int) == last_positive(weights@, m as int),
            pickable(weights@),
            point == threshold(total_of(weights@), draw),
            first_above(weights@, point, 0).is_none(),
        decreases m,
    {
        if num::check_lt(num::ZERO, weights[m - 1]) {
            return Some(m - 1);
        }
        m -= 1;
    }
    None
}

/// The state of a response group's delivery.
#[derive(Debug)]
pub enum ResponseDispatcher {
    /// Weighted picks without repeats until every response was given once;
    /// then all but the last one given are back.
    Shuffle { weights: Vec<u32>, candidates: Vec<usize> },
    /// Weighted picks with repeats.
    Random { weights: Vec<u32> },
    /// Weighted picks without repeats, until none is left.
    Deplete { weights: Vec<u32>, candidates: Vec<usize> },
    /// The responses in order, starting over after the last.
    Loop { len: usize, index: usize },
    /// The responses in order, once.
    List { len: usize, index: usize },
}

/// What a dispatcher is, with its lists as sequences.
pub enum DispatcherView {
    Shuffle { weights: Seq<u32>, candidates: Seq<usize> },
    Random { weights: Seq<u32> },
    Deplete { weights: Seq<u32>, candidates: Seq<usize> },
    Loop { len: usize, index: usize },
    List { len: usize, index: usize },
}

impl View for ResponseDispatcher {
    type V = DispatcherView;

    open spec fn view(&self) -> DispatcherView {
        match self {
            ResponseDispatcher::Shuffle { weights, candidates } => DispatcherView::Shuffle {
                weights: weights@,
                candidates: candidates@,
            },
            ResponseDispatcher::Random { weights } => DispatcherView::Random { weights: weights@ },
            ResponseDispatcher::Deplete { weights, candidates } => DispatcherView::Deplete {
                weights: weights@,
                candidates: candidates@,
            },
            ResponseDispatcher::Loop { len, index } => DispatcherView::Loop {
                len: *len,
                index: *index,
            },
            ResponseDispatcher::List { len, index } => DispatcherView::List {
                len: *len,
                index: *index,
            },
        }
    }
}

/// The weights of the responses that are still candidates, in the order of
/// the candidates.
pub open spec fn candidate_weights(weights: Seq<u32>, candidates: Seq<usize>) -> Seq<u32> {
    Seq::new(candidates.len(), |i: int| weights[candidates[i] as int])
}

/// Every candidate is a place of the list of weights.
pub open spec fn candidates_in_range(candidates: Seq<usize>, n: int) -> bool {
    forall|i: int| 0 <= i < candidates.len() ==> (#[trigger] candidates[i] as int) < n
}

/// The places `0, 1, ..., n - 1`.
pub open spec fn all_places(n: int) -> Seq<usize> {
    Seq::new(n as nat, |i: int| i as usize)
}

impl DispatcherView {
    /// The number of responses that the dispatcher hands out.
    pub open spec fn len(self) -> int {
        match self {
            DispatcherView::Shuffle { weights, .. } => weights.len() as int,
            DispatcherView::Random { weights } => weights.len() as int,
            DispatcherView::Deplete { weights, .. } => weights.len() as int,
            DispatcherView::Loop { len, .. } => len as int,
            DispatcherView::List { len, .. } => len as int,
        }
    }

    /// Candidates are places of the list of weights, and a cursor lies
    /// within its list.
    pub open spec fn wf(self) -> bool {
        match self {
            DispatcherView::Shuffle { weights, candidates } => candidates_in_range(
                candidates,
                weights.len() as int,
            ),
            DispatcherView::Random { .. } => true,
            DispatcherView::Deplete { weights, candidates } => candidates_in_range(
                candidates,
                weights.len() as int,
            ),
            DispatcherView::Loop { len, index } => index < len || len == 0,
            DispatcherView::List { len, index } => index <= len,
        }
    }

    /// The dispatcher after it was asked for a response with the given
    /// draw, and the response that it gave.
    pub open spec fn step(self, draw: u32) -> (DispatcherView, Option<usize>) {
        match self {
            DispatcherView::Shuffle { weights, candidates } => {
                if weights.len() == 1 {
                    (self, Some(0usize))
                } else {
                    match weighted_choice(candidate_weights(weights, candidates), draw) {
                        None => (self, None),
                        Some(at) => {
                            let given = candidates[at];
                            let rest = candidates.remove(at);
                            let next = if rest.len() == 0 {
                                all_places(weights.len() as int).remove(given as int)
                            } else {
                                rest
                            };
                            (DispatcherView::Shuffle { weights, candidates: next }, Some(given))
                        },
                    }
                }
            },
            DispatcherView::Random { weights } => {
                if weights.len() == 1 {
                    (self, Some(0usize))
                } else {
                    match weighted_choice(weights, draw) {
                        None => (self, None),
                        Some(at) => (self, Some(at as usize)),
                    }
                }
            },
            DispatcherView::Deplete { weights, candidates } => {
                match weighted_choice(candidate_weights(weights, candidates), draw) {
                    None => (self, None),
                    Some(at) => (
                        DispatcherView::Deplete { weights, candidates: candidates.remove(at) },
                        Some(candidates[at]),
                    ),
                }
            },
            DispatcherView::Loop { len, index } => {
                if len == 0 {
                    (self, None)
                } else {
                    (
                        DispatcherView::Loop {
                            len,
                            index: if index + 1 == len {
                                0usize
                            } else {
                                (index + 1) as usize
                            },
                        },
                        Some(index),
                    )
                }
            },
            DispatcherView::List { len, index } => {
                if index < len {
                    (DispatcherView::List { len, index: (index + 1) as usize }, Some(index))
                } else {
                    (self, None)
                }
            },
        }
    }

    /// Whether the rule that was answered from this dispatcher is to be
    /// switched off: a depleting group that has run out, a list that has
    /// reached its end.
    pub open spec fn disable_rule(self) -> bool {
        match self {
            DispatcherView::Shuffle { .. } => false,
            DispatcherView::Random { .. } => false,
            DispatcherView::Loop { .. } => false,
            DispatcherView::Deplete { candidates, .. } => candidates.len() == 0,
            DispatcherView::List { len, index } => len == index,
        }
    }
}

/// A step keeps a dispatcher well formed, and a response that it gives is
/// one of the group's.
pub proof fn lemma_step_wf(d: DispatcherView, draw: u32)
    requires
        d.wf(),
    ensures
        d.step(draw).0.wf(),
        d.step(draw).0.len() == d.len(),
        match d.step(draw).1 {
            Some(i) => (i as int) < d.len(),
            None => true,
        },
{
    match d {
        DispatcherView::Shuffle { weights, candidates } => {
            let cw = candidate_weights(weights, candidates);
            lemma_weighted_choice_in_range(cw, draw);
            match weighted_choice(cw, draw) {
                Some(at) => {
                    let rest = candidates.remove(at);
                    assert forall|i: int| 0 <= i < rest.len() implies (#[trigger] rest[i] as int)
                        < weights.len() by {
                        if i < at {
                            assert(rest[i] == candidates[i]);
                        } else {
                            assert(rest[i] == candidates[i + 1]);
                        }
                    }
                    let all = all_places(weights.len() as int);
                    let given = candidates[at];
                    let refill = all.remove(given as int);
                    assert forall|i: int| 0 <= i < refill.len() implies (#[trigger] refill[i] as int)
                        < weights.len() by {
                        if i < given {
                            assert(refill[i] == all[i]);
                        } else {
                            assert(refill[i] == all[i + 1]);
                        }
                    }
                },
                None => {},
            }
        },
        DispatcherView::Random { weights } => {
            lemma_weighted_choice_in_range(weights, draw);
        },
        DispatcherView::Deplete { weights, candidates } => {
            let cw = candidate_weights(weights, candidates);
            lemma_weighted_choice_in_range(cw, draw);
            match weighted_choice(cw, draw) {
                Some(at) => {
                    let rest = candidates.remove(at);
                    assert forall|i: int| 0 <= i < rest.len() implies (#[trigger] rest[i] as int)
                        < weights.len() by {
                        if i < at {
                            assert(rest[i] == candidates[i]);
                        } else {
                            assert(rest[i] == candidates[i + 1]);
                        }
                    }
                },
                None => {},
            }
        },
        _ => {},
    }
}

/// The weights of the candidates, gathered into a list.
fn gather(weights: &Vec<u32>, candidates: &Vec<usize>) -> (r: Vec<u32>)
    requires
        candidates_in_range(candidates@, weights@.len() as int),
    ensures
        r@ == candidate_weights(weights@, candidates@),
{
    let mut out: Vec<u32> = Vec::new();
    let mut i: usize = 0;
    while i < candidates.len()
        invariant
            i <= candidates@.len(),
            candidates_in_range(candidates@, weights@.len() as int),
            out@.len() == i,
            forall|j: int| 0 <= j < i ==> #[trigger] out@[j] == weights@[candidates@[j] as int],
        decreases candidates@.len() - i,
    {
        out.push(weights[candidates[i]]);
        i += 1;
    }
    assert(out@ =~= candidate_weights(weights@, candidates@));
    out
}

/// The places `0, 1, ..., n - 1`, as a list.
pub fn places(n: usize) -> (r: Vec<usize>)
    ensures
        r@ == all_places(n as int),
{
    let mut out: Vec<usize> = Vec::new();
    let mut i: usize = 0;
    while i < n
        invariant
            i <= n,
            out@.len() == i,
            forall|j: int| 0 <= j < i ==> #[trigger] out@[j] == j as usize,
        decreases n - i,
    {
        out.push(i);
        i += 1;
    }
    assert(out@ =~= all_places(n as int));
    out
}

impl ResponseDispatcher {
    /// Asks the dispatcher for a response with the given draw and moves it
    /// on.
    pub fn advance(&mut self, draw: u32) -> (r: Option<usize>)
        requires
            old(self)@.wf(),
        ensures
            (final(self)@, r) == old(self)@.step(draw),
            final(self)@.wf(),
            final(self)@.len() == old(self)@.len(),
            r.is_some() ==> (r.unwrap() as int) < old(self)@.len(),
    {
        proof {
            lemma_step_wf(self@, draw);
        }
        match self {
            ResponseDispatcher::Shuffle { weights, candidates } => {
                if weights.len() == 1 {
                    return Some(0);
                }
                let cw = gather(weights, candidates);
                proof {
                    lemma_weighted_choice_in_range(cw@, draw);
                }
                match weighted_pick(&cw, draw) {
                    None => None,
                    Some(at) => {
                        let given = candidates.remove(at);
                        if candidates.len() == 0 {
                            let mut refill = places(weights.len());
                            refill.remove(given);
                            *candidates = refill;
                        }
                        Some(given)
                    },
                }
            },
            ResponseDispatcher::Random { weights } => {
                if weights.len() == 1 {
                    return Some(0);
                }
                proof {
                    lemma_weighted_choice_in_range(weights@, draw);
                }
                weighted_pick(weights, draw)
            },
            ResponseDispatcher::Deplete { weights, candidates } => {
                let cw = gather(weights, candidates);
                proof {
                    lemma_weighted_choice_in_range(cw@, draw);
                }
                match weighted_pick(&cw, draw) {
                    None => None,
                    Some(at) => {
                        let given = candidates.remove(at);
                        Some(given)
                    },
                }
            },
            ResponseDispatcher::Loop { len, index } => {
                if *len == 0 {
                    None
                } else {
                    let i = *index;
                    *index = if i + 1 == *len { 0 } else { i + 1 };
                    Some(i)
                }
            },
            ResponseDispatcher::List { len, index } => {
                if *index < *len {
                    let i = *index;
                    *index = i + 1;
                    Some(i)
                } else {
                    None
                }
            },
        }
    }

    /// Asks the dispatcher for a response, with a draw from the random
    /// source.
    pub fn next(&mut self, rng: &mut ThreadRng) -> (r: Option<usize>)
        requires
            old(self)@.wf(),
        ensures
            exists|draw: u32| (final(self)@, r) == old(self)@.step(draw),
            final(self)@.wf(),
            final(self)@.len() == old(self)@.len(),
            r.is_some() ==> (r.unwrap() as int) < old(self)@.len(),
    {
        let d = chance::draw(rng);
        self.advance(d)
    }

    /// Whether the rule that was answered from this dispatcher is to be
    /// switched off.
    pub fn disable_rule(&self) -> (r: bool)
        ensures
            r == self@.disable_rule(),
    {
        match self {
            ResponseDispatcher::Shuffle { .. } => false,
            ResponseDispatcher::Random { .. } => false,
            ResponseDispatcher::Loop { .. } => false,
            ResponseDispatcher::Deplete { candidates, .. } => candidates.len() == 0,
            ResponseDispatcher::List { len, index } => *len == *index,
        }
    }
}

} // verus!
