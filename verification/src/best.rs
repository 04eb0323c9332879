//! What the scan for the best rules finds.
//!
//! The scan looks at the rules of a partition in descending order of score
//! and stops at the first rule that scores below the best so far. Here it
//! is shown that, where no score is a NaN, this loses nothing: what the scan
//! holds at the end are rules that match with the best score, and every
//! rule of a scanned partition that matches with the best score is among
//! them.
use crate::engine::by_descending_score;
use crate::engine::lemma_partition_at;
use crate::engine::nothing_yet;
use crate::engine::partition_at;
use crate::engine::rule_matches;
use crate::engine::scan_keys;
use crate::engine::scan_partition;
use crate::engine::Best;
use crate::engine::EngineCriterion;
use crate::engine::EngineRule;
use crate::engine::Partition;
use crate::num;
use vstd::prelude::*;

verus! {

/// No score of the list is a NaN.
pub open spec fn scores_are_numbers(rules: Seq<EngineRule>) -> bool {
    forall|r: int| 0 <= r < rules.len() ==> !num::is_nan((#[trigger] rules[r]).score)
}

/// No score of any partition is a NaN, and the rules of each partition
/// come in descending order of score.
pub open spec fn orderly(partitions: Seq<Partition>) -> bool {
    forall|p: int|
        0 <= p < partitions.len() ==> scores_are_numbers((#[trigger] partitions[p]).rules@)
            && by_descending_score(partitions[p].rules@)
}

/// What is held is sound: the best score is at least zero, and every rule
/// held is a rule of the engine that matches the query with that score.
pub open spec fn sound(
    criteria: Seq<EngineCriterion>,
    partitions: Seq<Partition>,
    bags: Seq<Seq<(Seq<u8>, u32)>>,
    held: Best,
) -> bool {
    &&& num::le(num::ZERO, held.score)
    &&& forall|i: int|
        0 <= i < held.rules.len() ==> (#[trigger] held.rules[i]).0 < partitions.len()
            && held.rules[i].1 < partitions[held.rules[i].0 as int].rules@.len() && rule_matches(
            criteria,
            partitions[held.rules[i].0 as int].rules@[held.rules[i].1 as int],
            bags,
        ) && num::eq(
            partitions[held.rules[i].0 as int].rules@[held.rules[i].1 as int].score,
            held.score,
        )
}

/// What is held accounts for a rule with the given score at the given
/// place: the best score is no less, and if it is the same, the rule is
/// held.
pub open spec fn accounts_for(held: Best, score: u32, place: (usize, usize)) -> bool {
    &&& !num::is_nan(held.score)
    &&& num::le(score, held.score)
    &&& num::eq(score, held.score) ==> held.rules.contains(place)
}

/// Scanning a partition keeps what is held sound.
pub proof fn lemma_scan_partition_sound(
    criteria: Seq<EngineCriterion>,
    partitions: Seq<Partition>,
    bags: Seq<Seq<(Seq<u8>, u32)>>,
    p: usize,
    from: int,
    held: Best,
)
    requires
        p < partitions.len(),
        0 <= from,
        scores_are_numbers(partitions[p as int].rules@),
        sound(criteria, partitions, bags, held),
    ensures
        sound(
            criteria,
            partitions,
            bags,
            scan_partition(criteria, partitions[p as int].rules@, bags, p, from, held),
        ),
    decreases partitions[p as int].rules@.len() - from,
{
    let rules = partitions[p as int].rules@;
    lemma_vec_len(partitions[p as int].rules);
    if from < rules.len() && !num::lt(rules[from].score, held.score) {
        if rule_matches(criteria, rules[from], bags) {
            let next = if num::lt(held.score, rules[from].score) {
                Best { score: rules[from].score, rules: seq![(p, from as usize)] }
            } else {
                Best { score: held.score, rules: held.rules.push((p, from as usize)) }
            };
            assert(!num::is_nan(rules[from].score));
            assert(sound(criteria, partitions, bags, next)) by {
                assert forall|i: int| 0 <= i < next.rules.len() implies (#[trigger] next.rules[i]).0
                    < partitions.len() && next.rules[i].1
                    < partitions[next.rules[i].0 as int].rules@.len() && rule_matches(
                    criteria,
                    partitions[next.rules[i].0 as int].rules@[next.rules[i].1 as int],
                    bags,
                ) && num::eq(
                    partitions[next.rules[i].0 as int].rules@[next.rules[i].1 as int].score,
                    next.score,
                ) by {
                    if !num::lt(held.score, rules[from].score) && i < held.rules.len() {
                        assert(next.rules[i] == held.rules[i]);
                    }
                }
            }
            lemma_scan_partition_sound(criteria, partitions, bags, p, from + 1, next);
        } else {
            lemma_scan_partition_sound(criteria, partitions, bags, p, from + 1, held);
        }
    }
}

/// Scanning more rules keeps a rule accounted for.
pub proof fn lemma_scan_partition_keeps(
    criteria: Seq<EngineCriterion>,
    rules: Seq<EngineRule>,
    bags: Seq<Seq<(Seq<u8>, u32)>>,
    p: usize,
    from: int,
    held: Best,
    score: u32,
    place: (usize, usize),
)
    requires
        0 <= from,
        scores_are_numbers(rules),
        accounts_for(held, score, place),
    ensures
        accounts_for(scan_partition(criteria, rules, bags, p, from, held), score, place),
    decreases rules.len() - from,
{
    if from < rules.len() && !num::lt(rules[from].score, held.score) {
        if rule_matches(criteria, rules[from], bags) {
            let next = if num::lt(held.score, rules[from].score) {
                Best { score: rules[from].score, rules: seq![(p, from as usize)] }
            } else {
                Best { score: held.score, rules: held.rules.push((p, from as usize)) }
            };
            if !num::lt(held.score, rules[from].score) && held.rules.contains(place) {
                let i = choose|i: int| 0 <= i < held.rules.len() && held.rules[i] == place;
                assert(next.rules[i] == place);
            }
            lemma_scan_partition_keeps(criteria, rules, bags, p, from + 1, next, score, place);
        } else {
            lemma_scan_partition_keeps(criteria, rules, bags, p, from + 1, held, score, place);
        }
    }
}

/// Scanning a partition from a place at or before a rule that matches
/// accounts for that rule, although the scan may stop before it reaches the
/// rule: it stops only at a rule that scores below the best, and the rules
/// after that one score no more.
pub proof fn lemma_scan_partition_finds(
    criteria: Seq<EngineCriterion>,
    rules: Seq<EngineRule>,
    bags: Seq<Seq<(Seq<u8>, u32)>>,
    p: usize,
    from: int,
    held: Best,
    r: int,
)
    requires
        0 <= from <= r < rules.len(),
        r <= usize::MAX,
        scores_are_numbers(rules),
        by_descending_score(rules),
        !num::is_nan(held.score),
        rule_matches(criteria, rules[r], bags),
    ensures
        accounts_for(
            scan_partition(criteria, rules, bags, p, from, held),
            rules[r].score,
            (p, r as usize),
        ),
    decreases r - from,
{
    let place = (p, r as usize);
    if num::lt(rules[from].score, held.score) {
        if from < r {
            assert(num::total_rank(rules[from].score) >= num::total_rank(rules[r].score));
            num::lemma_total_rank_refines_rank(rules[r].score, rules[from].score);
        }
    } else if from == r {
        let next = if num::lt(held.score, rules[from].score) {
            Best { score: rules[from].score, rules: seq![place] }
        } else {
            Best { score: held.score, rules: held.rules.push(place) }
        };
        assert(next.rules[next.rules.len() - 1] == place);
        assert(accounts_for(next, rules[r].score, place));
        lemma_scan_partition_keeps(
            criteria,
            rules,
            bags,
            p,
            from + 1,
            next,
            rules[r].score,
            place,
        );
    } else if rule_matches(criteria, rules[from], bags) {
        let next = if num::lt(held.score, rules[from].score) {
            Best { score: rules[from].score, rules: seq![(p, from as usize)] }
        } else {
            Best { score: held.score, rules: held.rules.push((p, from as usize)) }
        };
        lemma_scan_partition_finds(criteria, rules, bags, p, from + 1, next, r);
    } else {
        lemma_scan_partition_finds(criteria, rules, bags, p, from + 1, held, r);
    }
}

/// Scanning a partition leaves a best score that is no NaN.
pub proof fn lemma_scan_partition_number(
    criteria: Seq<EngineCriterion>,
    rules: Seq<EngineRule>,
    bags: Seq<Seq<(Seq<u8>, u32)>>,
    p: usize,
    from: int,
    held: Best,
)
    requires
        0 <= from,
        scores_are_numbers(rules),
        !num::is_nan(held.score),
    ensures
        !num::is_nan(scan_partition(criteria, rules, bags, p, from, held).score),
    decreases rules.len() - from,
{
    if from < rules.len() && !num::lt(rules[from].score, held.score) {
        if rule_matches(criteria, rules[from], bags) {
            let next = if num::lt(held.score, rules[from].score) {
                Best { score: rules[from].score, rules: seq![(p, from as usize)] }
            } else {
                Best { score: held.score, rules: held.rules.push((p, from as usize)) }
            };
            lemma_scan_partition_number(criteria, rules, bags, p, from + 1, next);
        } else {
            lemma_scan_partition_number(criteria, rules, bags, p, from + 1, held);
        }
    }
}

/// Scanning the partitions of several keys keeps what is held sound.
pub proof fn lemma_scan_keys_sound(
    criteria: Seq<EngineCriterion>,
    partitions: Seq<Partition>,
    bags: Seq<Seq<(Seq<u8>, u32)>>,
    keys: Seq<u64>,
    from: int,
    held: Best,
)
    requires
        0 <= from,
        partitions.len() <= usize::MAX,
        orderly(partitions),
        sound(criteria, partitions, bags, held),
    ensures
        sound(criteria, partitions, bags, scan_keys(criteria, partitions, bags, keys, from, held)),
    decreases keys.len() - from,
{
    if from < keys.len() {
        match partition_at(partitions, keys[from], 0) {
            Some(p) => {
                lemma_partition_at(partitions, keys[from], 0);
                lemma_scan_partition_sound(criteria, partitions, bags, p as usize, 0, held);
                lemma_scan_keys_sound(
                    criteria,
                    partitions,
                    bags,
                    keys,
                    from + 1,
                    scan_partition(criteria, partitions[p].rules@, bags, p as usize, 0, held),
                );
            },
            None => {
                lemma_scan_keys_sound(criteria, partitions, bags, keys, from + 1, held);
            },
        }
    }
}

/// Scanning the partitions of more keys keeps a rule accounted for.
pub proof fn lemma_scan_keys_keeps(
    criteria: Seq<EngineCriterion>,
    partitions: Seq<Partition>,
    bags: Seq<Seq<(Seq<u8>, u32)>>,
    keys: Seq<u64>,
    from: int,
    held: Best,
    score: u32,
    place: (usize, usize),
)
    requires
        0 <= from,
        partitions.len() <= usize::MAX,
        orderly(partitions),
        accounts_for(held, score, place),
    ensures
        accounts_for(scan_keys(criteria, partitions, bags, keys, from, held), score, place),
    decreases keys.len() - from,
{
    if from < keys.len() {
        match partition_at(partitions, keys[from], 0) {
            Some(p) => {
                lemma_partition_at(partitions, keys[from], 0);
                lemma_scan_partition_keeps(
                    criteria,
                    partitions[p].rules@,
                    bags,
                    p as usize,
                    0,
                    held,
                    score,
                    place,
                );
                lemma_scan_keys_keeps(
                    criteria,
                    partitions,
                    bags,
                    keys,
                    from + 1,
                    scan_partition(criteria, partitions[p].rules@, bags, p as usize, 0, held),
                    score,
                    place,
                );
            },
            None => {
                lemma_scan_keys_keeps(
                    criteria,
                    partitions,
                    bags,
                    keys,
                    from + 1,
                    held,
                    score,
                    place,
                );
            },
        }
    }
}

/// Scanning the partitions of several keys accounts for every rule that
/// matches in the partition of one of the keys.
pub proof fn lemma_scan_keys_finds(
    criteria: Seq<EngineCriterion>,
    partitions: Seq<Partition>,
    bags: Seq<Seq<(Seq<u8>, u32)>>,
    keys: Seq<u64>,
    from: int,
    held: Best,
    k: int,
    r: int,
)
    requires
        0 <= from <= k < keys.len(),
        partitions.len() <= usize::MAX,
        orderly(partitions),
        !num::is_nan(held.score),
        partition_at(partitions, keys[k], 0).is_some(),
        0 <= r < partitions[partition_at(partitions, keys[k], 0).unwrap()].rules@.len(),
        r <= usize::MAX,
        rule_matches(
            criteria,
            partitions[partition_at(partitions, keys[k], 0).unwrap()].rules@[r],
            bags,
        ),
    ensures
        accounts_for(
            scan_keys(criteria, partitions, bags, keys, from, held),
            partitions[partition_at(partitions, keys[k], 0).unwrap()].rules@[r].score,
            (partition_at(partitions, keys[k], 0).unwrap() as usize, r as usize),
        ),
    decreases k - from,
{
    let target = partition_at(partitions, keys[k], 0).unwrap();
    lemma_partition_at(partitions, keys[k], 0);
    let score = partitions[target].rules@[r].score;
    let place = (target as usize, r as usize);
    match partition_at(partitions, keys[from], 0) {
        Some(p) => {
            lemma_partition_at(partitions, keys[from], 0);
            let next = scan_partition(criteria, partitions[p].rules@, bags, p as usize, 0, held);
            lemma_scan_partition_number(criteria, partitions[p].rules@, bags, p as usize, 0, held);
            if from == k {
                lemma_scan_partition_finds(
                    criteria,
                    partitions[p].rules@,
                    bags,
                    p as usize,
                    0,
                    held,
                    r,
                );
                lemma_scan_keys_keeps(
                    criteria,
                    partitions,
                    bags,
                    keys,
                    from + 1,
                    next,
                    score,
                    place,
                );
            } else {
                lemma_scan_keys_finds(criteria, partitions, bags, keys, from + 1, next, k, r);
            }
        },
        None => {
            lemma_scan_keys_finds(criteria, partitions, bags, keys, from + 1, held, k, r);
        },
    }
}

/// The rules that the scan of the partitions of `keys` holds at the end
/// are rules that match the query with the best score, which is at least
/// zero; and a rule that matches the query in the partition of one of the
/// keys scores no more than the best, and is held if it scores the same.
pub proof fn lemma_best_rules_are_best(
    criteria: Seq<EngineCriterion>,
    partitions: Seq<Partition>,
    bags: Seq<Seq<(Seq<u8>, u32)>>,
    keys: Seq<u64>,
    k: int,
    r: int,
)
    requires
        partitions.len() <= usize::MAX,
        orderly(partitions),
    ensures
        sound(
            criteria,
            partitions,
            bags,
            scan_keys(criteria, partitions, bags, keys, 0, nothing_yet()),
        ),
        0 <= k < keys.len() && partition_at(partitions, keys[k], 0).is_some() && 0 <= r
            < partitions[partition_at(partitions, keys[k], 0).unwrap()].rules@.len()
            && rule_matches(
            criteria,
            partitions[partition_at(partitions, keys[k], 0).unwrap()].rules@[r],
            bags,
        ) ==> accounts_for(
            scan_keys(criteria, partitions, bags, keys, 0, nothing_yet()),
            partitions[partition_at(partitions, keys[k], 0).unwrap()].rules@[r].score,
            (partition_at(partitions, keys[k], 0).unwrap() as usize, r as usize),
        ),
{
    lemma_scan_keys_sound(criteria, partitions, bags, keys, 0, nothing_yet());
    if 0 <= k < keys.len() && partition_at(partitions, keys[k], 0).is_some() {
        let target = partition_at(partitions, keys[k], 0).unwrap();
        lemma_partition_at(partitions, keys[k], 0);
        if 0 <= r < partitions[target].rules@.len() && rule_matches(
            criteria,
            partitions[target].rules@[r],
            bags,
        ) {
            assert(partitions[target].rules@.len() <= usize::MAX) by {
                lemma_vec_len(partitions[target].rules);
            }
            lemma_scan_keys_finds(criteria, partitions, bags, keys, 0, nothing_yet(), k, r);
        }
    }
}

/// A list of rules is no longer than lists can be.
pub proof fn lemma_vec_len(rules: Vec<EngineRule>)
    ensures
        rules@.len() <= usize::MAX,
{
    assert(rules@.len() == rules.len());
}

} // verus!
