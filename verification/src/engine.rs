//! The compiled engine and the search for the rule that answers a query.
use crate::builder::ResponseEngineCompiler;
use crate::chance;
use crate::dispatch::DispatcherView;
use crate::dispatch::ResponseDispatcher;
use crate::effect::after_instructions;
use crate::effect::apply_instructions;
use crate::effect::Stores;
use crate::encoder::encoded;
use crate::encoder::Encoder;
use crate::hashing::assignments_of;
use crate::hashing::key_of;
use crate::hashing::partition_key;
use crate::model::Operation;
use crate::model::Response;
use crate::name::precedes;
use crate::props::Props;
use crate::name::Name;
use crate::num;
use crate::props::ascending;
use crate::scanner::after_seeing_bags;
use crate::scanner::all_ascending;
use crate::scanner::encoded_entries;
use crate::scanner::all_ready;
use crate::scanner::first_hit;
use crate::scanner::lemma_scan_from;
use crate::scanner::Query;
use crate::subsets::deep;
use crate::subsets::index_subsets;
use crate::subsets::is_choice;
use crate::subsets::lists_all_choices;
use crate::table::Table;
use crate::value::ValueView;
use rand::rngs::ThreadRng;
use vstd::prelude::*;

verus! {

/// A compiled criterion: the variable lies between `min` and `max`, both
/// included.
#[derive(Debug)]
pub struct EngineCriterion {
    pub variable: Name,
    pub min: u32,
    pub max: u32,
}

/// A compiled rule.
#[derive(Debug)]
pub struct EngineRule {
    /// The criteria that are tested when the rule is scanned, by their
    /// places in the engine's list, in ascending order of their variables.
    pub criteria: Vec<usize>,
    /// The response groups of the rule, by their places in the engine's list.
    pub response_groups: Vec<usize>,
    /// The change to make to each variable, and whether to the world.
    pub instructions: Table<(bool, Operation)>,
    /// The sum of the weights of the rule's criteria.
    pub score: u32,
    /// Whether the rule may still be chosen.
    pub enabled: bool,
}

/// A compiled response group.
#[derive(Debug)]
pub struct EngineResponseGroup {
    pub dispatcher: ResponseDispatcher,
    pub responses: Vec<Response>,
}

/// The rules that share one assignment to partition variables.
#[derive(Debug)]
pub struct Partition {
    pub key: u64,
    pub rules: Vec<EngineRule>,
}

/// The rules of an engine, in partitions.
#[derive(Debug)]
pub struct RulePartitions {
    /// The partition variables, in ascending order.
    pub vars: Vec<Name>,
    pub partitions: Vec<Partition>,
}

/// A compiled engine.
#[derive(Debug)]
pub struct ResponseEngine {
    pub criteria: Vec<EngineCriterion>,
    pub rules: RulePartitions,
    pub response_groups: Vec<EngineResponseGroup>,
    pub encoder: Encoder,
}

/// The names of a list are strictly ascending.
pub open spec fn names_ascending(names: Seq<Name>) -> bool {
    forall|i: int, j: int| 0 <= i < j < names.len() ==> precedes(names[i]@, names[j]@)
}

/// The variable of the `i`-th criterion that a rule tests.
pub open spec fn tested_variable(criteria: Seq<EngineCriterion>, rule: EngineRule, i: int) -> Seq<
    u8,
> {
    criteria[rule.criteria@[i] as int].variable@
}

/// The criteria and response groups of a rule exist, and the criteria it
/// tests are on different variables, in ascending order.
pub open spec fn rule_wf(criteria: Seq<EngineCriterion>, groups: int, rule: EngineRule) -> bool {
    &&& forall|i: int|
        0 <= i < rule.criteria@.len() ==> (#[trigger] rule.criteria@[i] as int) < criteria.len()
    &&& forall|i: int, j: int|
        0 <= i < j < rule.criteria@.len() ==> precedes(
            #[trigger] tested_variable(criteria, rule, i),
            #[trigger] tested_variable(criteria, rule, j),
        )
    &&& forall|i: int|
        0 <= i < rule.response_groups@.len() ==> (#[trigger] rule.response_groups@[i] as int)
            < groups
    &&& rule.instructions.wf()
}

/// The rules of a list come in descending order of score, in the total
/// order of bit patterns.
pub open spec fn by_descending_score(rules: Seq<EngineRule>) -> bool {
    forall|i: int, j: int|
        0 <= i < j < rules.len() ==> num::total_rank((#[trigger] rules[i]).score)
            >= num::total_rank((#[trigger] rules[j]).score)
}

/// A partition's rules are well formed and in descending order of score.
pub open spec fn partition_wf(criteria: Seq<EngineCriterion>, groups: int, partition: Partition) -> bool {
    &&& forall|r: int|
        0 <= r < partition.rules@.len() ==> rule_wf(criteria, groups, #[trigger] partition.rules@[r])
    &&& by_descending_score(partition.rules@)
}

/// A response group has one place in its dispatcher for each response.
pub open spec fn group_wf(group: EngineResponseGroup) -> bool {
    &&& group.dispatcher@.wf()
    &&& group.dispatcher@.len() == group.responses@.len()
}

/// A criterion holds of a query: the first bag that has the variable gives
/// a value that lies within the bounds.
pub open spec fn criterion_holds(criterion: EngineCriterion, bags: Seq<Seq<(Seq<u8>, u32)>>) -> bool {
    match first_hit(bags, criterion.variable@) {
        Some(v) => num::le(criterion.min, v) && num::le(v, criterion.max),
        None => false,
    }
}

/// A rule matches a query: it is enabled and each criterion that it tests
/// holds.
pub open spec fn rule_matches(
    criteria: Seq<EngineCriterion>,
    rule: EngineRule,
    bags: Seq<Seq<(Seq<u8>, u32)>>,
) -> bool {
    &&& rule.enabled
    &&& forall|i: int|
        0 <= i < rule.criteria@.len() ==> criterion_holds(
            criteria[#[trigger] rule.criteria@[i] as int],
            bags,
        )
}

/// The partition variables among the first `n` that the query gives a value
/// for, each with that value, in the order of the variables.
pub open spec fn assignments(vars: Seq<Name>, bags: Seq<Seq<(Seq<u8>, u32)>>, n: int) -> Seq<
    (Seq<u8>, u32),
>
    decreases n,
{
    if n <= 0 || n > vars.len() {
        Seq::<(Seq<u8>, u32)>::empty()
    } else {
        let before = assignments(vars, bags, n - 1);
        match first_hit(bags, vars[n - 1]@) {
            Some(v) => before.push((vars[n - 1]@, v)),
            None => before,
        }
    }
}

/// The assignments at the chosen places.
pub open spec fn selected(all: Seq<(Seq<u8>, u32)>, choice: Seq<usize>) -> Seq<(Seq<u8>, u32)> {
    Seq::new(choice.len(), |i: int| all[choice[i] as int])
}

/// The partition keys of the given choices among the assignments, one key
/// for each choice.
pub open spec fn keys_for(all: Seq<(Seq<u8>, u32)>, choices: Seq<Seq<usize>>) -> Seq<u64> {
    Seq::new(choices.len(), |k: int| key_of(selected(all, choices[k])))
}

/// The first partition from `from` on with the given key.
pub open spec fn partition_at(partitions: Seq<Partition>, key: u64, from: int) -> Option<int>
    decreases partitions.len() - from,
{
    if from < 0 || from >= partitions.len() {
        None
    } else if partitions[from].key == key {
        Some(from)
    } else {
        partition_at(partitions, key, from + 1)
    }
}

impl RulePartitions {
    /// The keys of all partitions that may hold rules for a query: one for
    /// each subset of the assignments that the query makes to partition
    /// variables, the empty subset among them.
    pub fn get_partition_keys_for_query(&self, query: &mut Query) -> (r: Vec<u64>)
        requires
            old(query).wf(),
            all_ascending(old(query).bags()),
            names_ascending(self.vars@),
        ensures
            final(query).wf(),
            final(query).bags() == old(query).bags(),
            exists|choices: Seq<Seq<usize>>|
                lists_all_choices(
                    choices,
                    assignments(self.vars@, old(query).bags(), self.vars@.len() as int).len() as int,
                ) && r@ == #[trigger] keys_for(
                    assignments(self.vars@, old(query).bags(), self.vars@.len() as int),
                    choices,
                ),
    {
        let ghost bags = query.bags();
        query.reset();
        let mut found: Vec<(Name, u32)> = Vec::new();
        let mut i: usize = 0;
        while i < self.vars.len()
            invariant
                i <= self.vars@.len(),
                query.wf(),
                query.bags() == bags,
                all_ascending(bags),
                names_ascending(self.vars@),
                i < self.vars@.len() ==> all_ready(bags, query.cursors(), self.vars@[i as int]@),
                assignments_of(found@) == assignments(self.vars@, bags, i as int),
            decreases self.vars@.len() - i,
        {
            let ghost cursors = query.cursors();
            let ghost var = self.vars@[i as int]@;
            let ghost later = if i + 1 < self.vars@.len() {
                self.vars@[i + 1]@
            } else {
                var
            };
            let hit = query.scan_to(&self.vars[i]);
            proof {
                lemma_scan_from(bags, cursors, 0, var, later);
            }
            let ghost before = assignments_of(found@);
            match hit {
                Some(value) => {
                    found.push((self.vars[i].duplicate(), value));
                    assert(assignments_of(found@) =~= before.push((var, value)));
                },
                None => {},
            }
            i += 1;
        }
        let ghost all = assignments_of(found@);
        let choices = index_subsets(found.len());
        let mut keys: Vec<u64> = Vec::new();
        let mut k: usize = 0;
        while k < choices.len()
            invariant
                k <= choices@.len(),
                all == assignments_of(found@),
                lists_all_choices(deep(choices@), found@.len() as int),
                keys@.len() == k,
                forall|m: int|
                    0 <= m < k ==> #[trigger] keys@[m] == key_of(selected(all, deep(choices@)[m])),
            decreases choices@.len() - k,
        {
            let choice = &choices[k];
            assert(is_choice(deep(choices@)[k as int], found@.len() as int));
            let mut picked: Vec<(Name, u32)> = Vec::new();
            let mut j: usize = 0;
            while j < choice.len()
                invariant
                    j <= choice@.len(),
                    all == assignments_of(found@),
                    is_choice(choice@, found@.len() as int),
                    picked@.len() == j,
                    forall|m: int|
                        0 <= m < j ==> (#[trigger] picked@[m]).0@ == all[choice@[m] as int].0
                            && picked@[m].1 == all[choice@[m] as int].1,
                decreases choice@.len() - j,
            {
                let at = choice[j];
                assert(all[at as int] == (found@[at as int].0@, found@[at as int].1));
                picked.push((found[at].0.duplicate(), found[at].1));
                j += 1;
            }
            assert(assignments_of(picked@) =~= selected(all, choice@));
            keys.push(partition_key(&picked));
            k += 1;
        }
        assert(keys@ =~= keys_for(all, deep(choices@)));
        keys
    }

    /// The key of the partition for a list of assignments.
    pub fn get_partition_key_for_assignments(&self, assignments: &Vec<(Name, u32)>) -> (r: u64)
        ensures
            r == key_of(assignments_of(assignments@)),
    {
        partition_key(assignments)
    }

    /// The place of the partition with the given key, if there is one.
    pub fn get_partition(&self, key: u64) -> (r: Option<usize>)
        ensures
            match r {
                Some(p) => partition_at(self.partitions@, key, 0) == Some(p as int) && p
                    < self.partitions@.len() && self.partitions@[p as int].key == key,
                None => partition_at(self.partitions@, key, 0).is_none(),
            },
    {
        let mut p: usize = 0;
        while p < self.partitions.len()
            invariant
                p <= self.partitions@.len(),
                partition_at(self.partitions@, key, 0) == partition_at(
                    self.partitions@,
                    key,
                    p as int,
                ),
            decreases self.partitions@.len() - p,
        {
            if self.partitions[p].key == key {
                return Some(p);
            }
            p += 1;
        }
        None
    }
}

impl ResponseEngine {
    /// A compiler without definitions, from which to build an engine.
    pub fn build() -> (r: ResponseEngineCompiler)
        ensures
            r.wf(),
            r.partition_variables@.len() == 0,
            r.criteria@.len() == 0,
            r.rules@.len() == 0,
            r.response_groups@.len() == 0,
    {
        ResponseEngineCompiler::new()
    }

    /// Whether a rule matches the query: it is enabled, and for each
    /// criterion that it tests the query gives the variable a value within
    /// the bounds.
    pub fn match_rule_criteria(&self, query: &mut Query, rule: &EngineRule) -> (r: bool)
        requires
            old(query).wf(),
            all_ascending(old(query).bags()),
            rule_wf(self.criteria@, self.response_groups@.len() as int, *rule),
        ensures
            final(query).wf(),
            final(query).bags() == old(query).bags(),
            r == rule_matches(self.criteria@, *rule, old(query).bags()),
    {
        let ghost bags = query.bags();
        if !rule.enabled {
            return false;
        }
        query.reset();
        let mut i: usize = 0;
        while i < rule.criteria.len()
            invariant
                i <= rule.criteria@.len(),
                query.wf(),
                query.bags() == bags,
                bags == old(query).bags(),
                all_ascending(bags),
                rule.enabled,
                rule_wf(self.criteria@, self.response_groups@.len() as int, *rule),
                i < rule.criteria@.len() ==> all_ready(
                    bags,
                    query.cursors(),
                    tested_variable(self.criteria@, *rule, i as int),
                ),
                forall|j: int|
                    0 <= j < i ==> criterion_holds(
                        self.criteria@[#[trigger] rule.criteria@[j] as int],
                        bags,
                    ),
            decreases rule.criteria@.len() - i,
        {
            let criterion = &self.criteria[rule.criteria[i]];
            let ghost cursors = query.cursors();
            let ghost var = tested_variable(self.criteria@, *rule, i as int);
            let ghost later = if i + 1 < rule.criteria@.len() {
                tested_variable(self.criteria@, *rule, i + 1)
            } else {
                var
            };
            let hit = query.scan_to(&criterion.variable);
            proof {
                lemma_scan_from(bags, cursors, 0, var, later);
            }
            let holds = match hit {
                Some(value) => num::check_le(criterion.min, value) && num::check_le(
                    value,
                    criterion.max,
                ),
                None => false,
            };
            if !holds {
                assert(!criterion_holds(self.criteria@[rule.criteria@[i as int] as int], bags));
                return false;
            }
            i += 1;
        }
        true
    }
}

/// The best score found so far and the rules that match with that score,
/// each by the place of its partition and its place in the partition.
pub struct Best {
    pub score: u32,
    pub rules: Seq<(usize, usize)>,
}

/// Before any rule was looked at: the score to beat is zero and no rule is
/// held.
pub open spec fn nothing_yet() -> Best {
    Best { score: num::ZERO, rules: Seq::<(usize, usize)>::empty() }
}

/// What is held after the rules of partition `p` from place `from` on were
/// looked at in order. The scan of the partition stops at the first rule
/// whose score lies below the best so far. A rule that matches replaces
/// what is held if its score lies above the best, and joins it otherwise.
pub open spec fn scan_partition(
    criteria: Seq<EngineCriterion>,
    rules: Seq<EngineRule>,
    bags: Seq<Seq<(Seq<u8>, u32)>>,
    p: usize,
    from: int,
    held: Best,
) -> Best
    decreases rules.len() - from,
{
    if from < 0 || from >= rules.len() {
        held
    } else if num::lt(rules[from].score, held.score) {
        held
    } else if rule_matches(criteria, rules[from], bags) {
        if num::lt(held.score, rules[from].score) {
            scan_partition(
                criteria,
                rules,
                bags,
                p,
                from + 1,
                Best { score: rules[from].score, rules: seq![(p, from as usize)] },
            )
        } else {
            scan_partition(
                criteria,
                rules,
                bags,
                p,
                from + 1,
                Best { score: held.score, rules: held.rules.push((p, from as usize)) },
            )
        }
    } else {
        scan_partition(criteria, rules, bags, p, from + 1, held)
    }
}

/// What is held after the partitions of the keys from place `from` on were
/// scanned in order; a key without a partition adds nothing.
pub open spec fn scan_keys(
    criteria: Seq<EngineCriterion>,
    partitions: Seq<Partition>,
    bags: Seq<Seq<(Seq<u8>, u32)>>,
    keys: Seq<u64>,
    from: int,
    held: Best,
) -> Best
    decreases keys.len() - from,
{
    if from < 0 || from >= keys.len() {
        held
    } else {
        match partition_at(partitions, keys[from], 0) {
            Some(p) => scan_keys(
                criteria,
                partitions,
                bags,
                keys,
                from + 1,
                scan_partition(criteria, partitions[p].rules@, bags, p as usize, 0, held),
            ),
            None => scan_keys(criteria, partitions, bags, keys, from + 1, held),
        }
    }
}

/// Every rule that a scan holds is a rule of the engine.
pub open spec fn held_in_range(partitions: Seq<Partition>, rules: Seq<(usize, usize)>) -> bool {
    forall|i: int|
        0 <= i < rules.len() ==> (#[trigger] rules[i]).0 < partitions.len() && rules[i].1
            < partitions[rules[i].0 as int].rules@.len()
}

/// A scan of a partition holds only rules of the engine, if it did before.
pub proof fn lemma_scan_partition_in_range(
    criteria: Seq<EngineCriterion>,
    partitions: Seq<Partition>,
    bags: Seq<Seq<(Seq<u8>, u32)>>,
    p: usize,
    from: int,
    held: Best,
)
    requires
        p < partitions.len(),
        0 <= from,
        held_in_range(partitions, held.rules),
    ensures
        held_in_range(
            partitions,
            scan_partition(criteria, partitions[p as int].rules@, bags, p, from, held).rules,
        ),
    decreases partitions[p as int].rules@.len() - from,
{
    let rules = partitions[p as int].rules@;
    if from < rules.len() && !num::lt(rules[from].score, held.score) {
        if rule_matches(criteria, rules[from], bags) {
            if num::lt(held.score, rules[from].score) {
                let next = Best { score: rules[from].score, rules: seq![(p, from as usize)] };
                assert(held_in_range(partitions, next.rules));
                lemma_scan_partition_in_range(criteria, partitions, bags, p, from + 1, next);
            } else {
                let next = Best {
                    score: held.score,
                    rules: held.rules.push((p, from as usize)),
                };
                assert forall|i: int| 0 <= i < next.rules.len() implies (#[trigger] next.rules[i]).0
                    < partitions.len() && next.rules[i].1
                    < partitions[next.rules[i].0 as int].rules@.len() by {
                    if i < held.rules.len() {
                        assert(next.rules[i] == held.rules[i]);
                    }
                }
                lemma_scan_partition_in_range(criteria, partitions, bags, p, from + 1, next);
            }
        } else {
            lemma_scan_partition_in_range(criteria, partitions, bags, p, from + 1, held);
        }
    }
}

/// A scan of several partitions holds only rules of the engine, if it did
/// before.
pub proof fn lemma_scan_keys_in_range(
    criteria: Seq<EngineCriterion>,
    partitions: Seq<Partition>,
    bags: Seq<Seq<(Seq<u8>, u32)>>,
    keys: Seq<u64>,
    from: int,
    held: Best,
)
    requires
        0 <= from,
        partitions.len() <= usize::MAX,
        held_in_range(partitions, held.rules),
    ensures
        held_in_range(partitions, scan_keys(criteria, partitions, bags, keys, from, held).rules),
    decreases keys.len() - from,
{
    if from < keys.len() {
        match partition_at(partitions, keys[from], 0) {
            Some(p) => {
                lemma_partition_at(partitions, keys[from], 0);
                lemma_scan_partition_in_range(criteria, partitions, bags, p as usize, 0, held);
                lemma_scan_keys_in_range(
                    criteria,
                    partitions,
                    bags,
                    keys,
                    from + 1,
                    scan_partition(criteria, partitions[p].rules@, bags, p as usize, 0, held),
                );
            },
            None => {
                lemma_scan_keys_in_range(criteria, partitions, bags, keys, from + 1, held);
            },
        }
    }
}

/// The place that `partition_at` gives is a place of the list, and the
/// partition there has the key.
pub proof fn lemma_partition_at(partitions: Seq<Partition>, key: u64, from: int)
    requires
        0 <= from,
    ensures
        match partition_at(partitions, key, from) {
            Some(p) => from <= p < partitions.len() && partitions[p].key == key,
            None => true,
        },
    decreases partitions.len() - from,
{
    if from < partitions.len() && partitions[from].key != key {
        lemma_partition_at(partitions, key, from + 1);
    }
}

impl ResponseEngine {
    /// The rules of the engine are well formed.
    pub open spec fn rules_wf(&self) -> bool {
        forall|p: int|
            0 <= p < self.rules.partitions@.len() ==> partition_wf(
                self.criteria@,
                self.response_groups@.len() as int,
                #[trigger] self.rules.partitions@[p],
            )
    }

    /// The engine is well formed: its encoder is, its partition variables
    /// are in ascending order, no two partitions share a key, the rules of
    /// each partition are well formed and in descending order of score, and
    /// each response group has one place in its dispatcher for each response.
    pub open spec fn wf(&self) -> bool {
        &&& self.encoder.wf()
        &&& names_ascending(self.rules.vars@)
        &&& self.rules_wf()
        &&& forall|p: int, q: int|
            0 <= p < q < self.rules.partitions@.len() ==> (#[trigger] self.rules.partitions@[p]).key
                != (#[trigger] self.rules.partitions@[q]).key
        &&& forall|g: int|
            0 <= g < self.response_groups@.len() ==> group_wf(#[trigger] self.response_groups@[g])
    }

    /// The rules that match the query with the best score, found by scanning
    /// the partitions of the given keys in order.
    pub fn best_rules_for_keys(&self, query: &mut Query, keys: &Vec<u64>) -> (r: Vec<
        (usize, usize),
    >)
        requires
            old(query).wf(),
            all_ascending(old(query).bags()),
            self.rules_wf(),
        ensures
            final(query).wf(),
            final(query).bags() == old(query).bags(),
            r@ == scan_keys(
                self.criteria@,
                self.rules.partitions@,
                old(query).bags(),
                keys@,
                0,
                nothing_yet(),
            ).rules,
            held_in_range(self.rules.partitions@, r@),
    {
        let ghost bags = query.bags();
        let mut best_score: u32 = num::ZERO;
        let mut best_rules: Vec<(usize, usize)> = Vec::new();
        let mut k: usize = 0;
        let count = self.rules.partitions.len();
        proof {
            assert(count == self.rules.partitions@.len());
            lemma_scan_keys_in_range(
                self.criteria@,
                self.rules.partitions@,
                bags,
                keys@,
                0,
                nothing_yet(),
            );
        }
        while k < keys.len()
            invariant
                k <= keys@.len(),
                query.wf(),
                query.bags() == bags,
                bags == old(query).bags(),
                all_ascending(bags),
                self.rules_wf(),
                scan_keys(
                    self.criteria@,
                    self.rules.partitions@,
                    bags,
                    keys@,
                    0,
                    nothing_yet(),
                ) == scan_keys(
                    self.criteria@,
                    self.rules.partitions@,
                    bags,
                    keys@,
                    k as int,
                    Best { score: best_score, rules: best_rules@ },
                ),
            decreases keys@.len() - k,
        {
            match self.rules.get_partition(keys[k]) {
                None => {},
                Some(p) => {
                    let partition = &self.rules.partitions[p];
                    let ghost start = Best { score: best_score, rules: best_rules@ };
                    let mut i: usize = 0;
                    while i < partition.rules.len()
                        invariant
                            i <= partition.rules@.len(),
                            query.wf(),
                            query.bags() == bags,
                            all_ascending(bags),
                            self.rules_wf(),
                            p < self.rules.partitions@.len(),
                            *partition == self.rules.partitions@[p as int],
                            scan_partition(
                                self.criteria@,
                                partition.rules@,
                                bags,
                                p,
                                0,
                                start,
                            ) == scan_partition(
                                self.criteria@,
                                partition.rules@,
                                bags,
                                p,
                                i as int,
                                Best { score: best_score, rules: best_rules@ },
                            ),
                        ensures
                            scan_partition(
                                self.criteria@,
                                partition.rules@,
                                bags,
                                p,
                                0,
                                start,
                            ) == (Best { score: best_score, rules: best_rules@ }),
                        decreases partition.rules@.len() - i,
                    {
                        let rule = &partition.rules[i];
                        if num::check_lt(rule.score, best_score) {
                            break;
                        }
                        assert(partition_wf(
                            self.criteria@,
                            self.response_groups@.len() as int,
                            self.rules.partitions@[p as int],
                        ));
                        if self.match_rule_criteria(query, rule) {
                            if num::check_lt(best_score, rule.score) {
                                best_score = rule.score;
                                best_rules = Vec::new();
                                best_rules.push((p, i));
                                assert(best_rules@ =~= seq![(p, i)]);
                            } else {
                                best_rules.push((p, i));
                            }
                        }
                        i += 1;
                    }
                },
            }
            k += 1;
        }
        best_rules
    }
}

/// The dispatchers of a list of response groups.
pub open spec fn dispatchers(groups: Seq<EngineResponseGroup>) -> Seq<DispatcherView> {
    Seq::new(groups.len(), |g: int| groups[g].dispatcher@)
}

/// The dispatchers and the answer after the groups of `order` from place
/// `from` on were asked in turn, each with its draw, up to and including the
/// first that gives a response. The answer is the place of that group and
/// the place of the response in it.
pub open spec fn dispatched(
    groups: Seq<DispatcherView>,
    order: Seq<usize>,
    draws: Seq<u32>,
    from: int,
) -> (Seq<DispatcherView>, Option<(usize, usize)>)
    decreases order.len() - from,
{
    if from < 0 || from >= order.len() || from >= draws.len() || order[from] >= groups.len() {
        (groups, None)
    } else {
        let g = order[from];
        let step = groups[g as int].step(draws[from]);
        let moved = groups.update(g as int, step.0);
        match step.1 {
            Some(i) => (moved, Some((g, i))),
            None => dispatched(moved, order, draws, from + 1),
        }
    }
}

/// The encoded form of a list of entries: each value replaced by the number
/// that stands for it.
pub open spec fn encoded_bag(names: Seq<Seq<u8>>, entries: Seq<(Seq<u8>, ValueView)>) -> Seq<
    (Seq<u8>, u32),
> {
    Seq::new(entries.len(), |i: int| (entries[i].0, encoded(names, entries[i].1).unwrap()))
}

/// What answering from a chosen rule does to an engine and to the stores:
/// the rule's instructions are carried out; then its response groups are
/// asked in the given order with the given draws; and the rule is switched
/// off if the group that answered says so. Nothing else changes.
pub open spec fn answers(
    before: ResponseEngine,
    after: ResponseEngine,
    stores_before: Stores,
    stores_after: Stores,
    chosen: (usize, usize),
    order: Seq<usize>,
    draws: Seq<u32>,
    hit: Option<(usize, usize)>,
) -> bool {
    let rule = before.rules.partitions@[chosen.0 as int].rules@[chosen.1 as int];
    &&& after.criteria == before.criteria
    &&& after.rules.vars == before.rules.vars
    &&& stores_after == after_instructions(
        rule.instructions@,
        rule.instructions@.len() as int,
        stores_before,
    )
    &&& (dispatchers(after.response_groups@), hit) == dispatched(
        dispatchers(before.response_groups@),
        order,
        draws,
        0,
    )
    &&& after.response_groups@.len() == before.response_groups@.len()
    &&& forall|g: int|
        0 <= g < before.response_groups@.len() ==> (#[trigger] after.response_groups@[g]).responses
            == before.response_groups@[g].responses
    &&& after.rules.partitions@.len() == before.rules.partitions@.len()
    &&& forall|p: int|
        0 <= p < before.rules.partitions@.len() ==> (#[trigger] after.rules.partitions@[p]).key
            == before.rules.partitions@[p].key && after.rules.partitions@[p].rules@.len()
            == before.rules.partitions@[p].rules@.len()
    &&& forall|p: int, r: int|
        0 <= p < before.rules.partitions@.len() && 0 <= r
            < before.rules.partitions@[p].rules@.len() ==> #[trigger] after.rules.partitions@[p].rules@[r]
            == if p == chosen.0 && r == chosen.1 {
            EngineRule {
                criteria: rule.criteria,
                response_groups: rule.response_groups,
                instructions: rule.instructions,
                score: rule.score,
                enabled: rule.enabled && !switches_off(dispatchers(after.response_groups@), hit),
            }
        } else {
            before.rules.partitions@[p].rules@[r]
        }
}

/// Whether the group that answered asks for its rule to be switched off.
pub open spec fn switches_off(groups: Seq<DispatcherView>, hit: Option<(usize, usize)>) -> bool {
    match hit {
        Some((g, _)) => g < groups.len() && groups[g as int].disable_rule(),
        None => false,
    }
}

impl ResponseEngine {
    /// Asks the response groups of `order` in turn, each with its draw, for
    /// a response, up to the first that gives one.
    pub fn dispatch_with(&mut self, order: &Vec<usize>, draws: &Vec<u32>) -> (r: Option<
        (usize, usize),
    >)
        requires
            forall|g: int|
                0 <= g < old(self).response_groups@.len() ==> group_wf(
                    #[trigger] old(self).response_groups@[g],
                ),
            forall|i: int|
                0 <= i < order@.len() ==> (#[trigger] order@[i] as int)
                    < old(self).response_groups@.len(),
            draws@.len() == order@.len(),
        ensures
            final(self).criteria == old(self).criteria,
            final(self).rules == old(self).rules,
            final(self).encoder == old(self).encoder,
            (dispatchers(final(self).response_groups@), r) == dispatched(
                dispatchers(old(self).response_groups@),
                order@,
                draws@,
                0,
            ),
            final(self).response_groups@.len() == old(self).response_groups@.len(),
            forall|g: int|
                0 <= g < old(self).response_groups@.len() ==> (
                #[trigger] final(self).response_groups@[g]).responses
                    == old(self).response_groups@[g].responses && group_wf(
                    final(self).response_groups@[g],
                ),
            match r {
                Some((g, i)) => g < final(self).response_groups@.len() && i
                    < final(self).response_groups@[g as int].responses@.len(),
                None => true,
            },
    {
        let ghost start = dispatchers(self.response_groups@);
        let mut k: usize = 0;
        while k < order.len()
            invariant
                k <= order@.len(),
                draws@.len() == order@.len(),
                self.criteria == old(self).criteria,
                self.rules == old(self).rules,
                self.encoder == old(self).encoder,
                start == dispatchers(old(self).response_groups@),
                self.response_groups@.len() == old(self).response_groups@.len(),
                forall|i: int|
                    0 <= i < order@.len() ==> (#[trigger] order@[i] as int)
                        < self.response_groups@.len(),
                forall|g: int|
                    0 <= g < self.response_groups@.len() ==> (#[trigger] self.response_groups@[g]).responses
                        == old(self).response_groups@[g].responses && group_wf(
                        self.response_groups@[g],
                    ),
                dispatched(start, order@, draws@, 0) == dispatched(
                    dispatchers(self.response_groups@),
                    order@,
                    draws@,
                    k as int,
                ),
            decreases order@.len() - k,
        {
            let g = order[k];
            let ghost before = dispatchers(self.response_groups@);
            assert(group_wf(self.response_groups@[g as int]));
            let given = self.response_groups[g].dispatcher.advance(draws[k]);
            proof {
                assert(dispatchers(self.response_groups@) =~= before.update(
                    g as int,
                    before[g as int].step(draws@[k as int]).0,
                ));
            }
            match given {
                Some(i) => {
                    return Some((g, i));
                },
                None => {},
            }
            k += 1;
        }
        None
    }
}

/// The bags of a query over a request, a character and a world, encoded
/// with the given strings known.
pub open spec fn query_bags(
    names: Seq<Seq<u8>>,
    request: Seq<(Seq<u8>, ValueView)>,
    character: Seq<(Seq<u8>, ValueView)>,
    world: Seq<(Seq<u8>, ValueView)>,
) -> Seq<Seq<(Seq<u8>, u32)>> {
    seq![encoded_bag(names, request), encoded_bag(names, character), encoded_bag(names, world)]
}

/// The rules that match a query with the best score, where the subsets of
/// the partition assignments are taken in the order of `choices`.
pub open spec fn best_rules(
    engine: ResponseEngine,
    bags: Seq<Seq<(Seq<u8>, u32)>>,
    choices: Seq<Seq<usize>>,
) -> Seq<(usize, usize)> {
    scan_keys(
        engine.criteria@,
        engine.rules.partitions@,
        bags,
        keys_for(assignments(engine.rules.vars@, bags, engine.rules.vars@.len() as int), choices),
        0,
        nothing_yet(),
    ).rules
}

/// The order lists the same groups as the rule, each as often.
pub open spec fn reorders(order: Seq<usize>, groups: Seq<usize>) -> bool {
    order.to_multiset() == groups.to_multiset()
}

impl ResponseEngine {
    /// Answers from a chosen rule: carries out its instructions, asks its
    /// response groups in the given order with the given draws, and
    /// switches the rule off if the group that answered says so. Gives the
    /// place of the group that answered and of the response in it.
    pub fn respond_with(
        &mut self,
        chosen: (usize, usize),
        order: &Vec<usize>,
        draws: &Vec<u32>,
        character: &mut Props,
        world: &mut Props,
    ) -> (r: Option<(usize, usize)>)
        requires
            old(self).wf(),
            old(character).wf(),
            old(world).wf(),
            chosen.0 < old(self).rules.partitions@.len(),
            chosen.1 < old(self).rules.partitions@[chosen.0 as int].rules@.len(),
            forall|i: int|
                0 <= i < order@.len() ==> (#[trigger] order@[i] as int)
                    < old(self).response_groups@.len(),
            draws@.len() == order@.len(),
        ensures
            final(self).wf(),
            final(character).wf(),
            final(world).wf(),
            answers(
                *old(self),
                *final(self),
                Stores {
                    character: old(character)@,
                    world: old(world)@,
                    names: old(self).encoder@,
                },
                Stores {
                    character: final(character)@,
                    world: final(world)@,
                    names: final(self).encoder@,
                },
                chosen,
                order@,
                draws@,
                r,
            ),
            match r {
                Some((g, i)) => g < final(self).response_groups@.len() && i
                    < final(self).response_groups@[g as int].responses@.len(),
                None => true,
            },
    {
        let (p, at) = chosen;
        assert(partition_wf(
            self.criteria@,
            self.response_groups@.len() as int,
            self.rules.partitions@[p as int],
        ));
        apply_instructions(
            &self.rules.partitions[p].rules[at].instructions,
            character,
            world,
            &mut self.encoder,
        );
        let hit = self.dispatch_with(order, draws);
        let off = match hit {
            Some((g, _)) => self.response_groups[g].dispatcher.disable_rule(),
            None => false,
        };
        let ghost before = self.rules.partitions@;
        if off {
            self.rules.partitions[p].rules[at].enabled = false;
        }
        proof {
            let after = self.rules.partitions@;
            assert forall|q: int| 0 <= q < after.len() implies partition_wf(
                self.criteria@,
                self.response_groups@.len() as int,
                #[trigger] after[q],
            ) by {
                assert(partition_wf(
                    self.criteria@,
                    self.response_groups@.len() as int,
                    before[q],
                ));
                assert forall|i: int| 0 <= i < after[q].rules@.len() implies rule_wf(
                    self.criteria@,
                    self.response_groups@.len() as int,
                    #[trigger] after[q].rules@[i],
                ) by {
                    let was = before[q].rules@[i];
                    let is = after[q].rules@[i];
                    assert(rule_wf(self.criteria@, self.response_groups@.len() as int, was));
                    assert(is.criteria == was.criteria);
                    assert(is.response_groups == was.response_groups);
                    assert(is.instructions == was.instructions);
                    assert forall|a: int, b: int|
                        0 <= a < b < is.criteria@.len() implies precedes(
                        #[trigger] tested_variable(self.criteria@, is, a),
                        #[trigger] tested_variable(self.criteria@, is, b),
                    ) by {
                        assert(tested_variable(self.criteria@, is, a) == tested_variable(
                            self.criteria@,
                            was,
                            a,
                        ));
                        assert(tested_variable(self.criteria@, is, b) == tested_variable(
                            self.criteria@,
                            was,
                            b,
                        ));
                    }
                }
                assert forall|i: int, j: int|
                    0 <= i < j < after[q].rules@.len() implies num::total_rank(
                    (#[trigger] after[q].rules@[i]).score,
                ) >= num::total_rank((#[trigger] after[q].rules@[j]).score) by {
                    assert(after[q].rules@[i].score == before[q].rules@[i].score);
                    assert(after[q].rules@[j].score == before[q].rules@[j].score);
                }
            }
        }
        hit
    }
}

/// One way in which a call may go. The subsets of the partition assignments
/// come in the order of `choices`. Where no rule matches, nothing is
/// answered and only the encoder has learnt the strings of the query. Else
/// `chosen` is one of the best rules, `order` lists its response groups in
/// some order, there is one draw for each, and the engine answers from the
/// rule as `answers` says.
pub open spec fn goes(
    before: ResponseEngine,
    after: ResponseEngine,
    request: Seq<(Seq<u8>, ValueView)>,
    stores_before: Stores,
    stores_after: Stores,
    choices: Seq<Seq<usize>>,
    chosen: Option<(usize, usize)>,
    order: Seq<usize>,
    draws: Seq<u32>,
    hit: Option<(usize, usize)>,
) -> bool {
    let bags = query_bags(
        stores_before.names,
        request,
        stores_before.character,
        stores_before.world,
    );
    &&& lists_all_choices(
        choices,
        assignments(before.rules.vars@, bags, before.rules.vars@.len() as int).len() as int,
    )
    &&& match chosen {
        None => {
            &&& best_rules(before, bags, choices).len() == 0
            &&& hit.is_none()
            &&& stores_after == stores_before
            &&& after.criteria == before.criteria
            &&& after.rules == before.rules
            &&& after.response_groups == before.response_groups
        },
        Some(rule) => {
            &&& best_rules(before, bags, choices).contains(rule)
            &&& rule.0 < before.rules.partitions@.len()
            &&& rule.1 < before.rules.partitions@[rule.0 as int].rules@.len()
            &&& reorders(
                order,
                before.rules.partitions@[rule.0 as int].rules@[rule.1 as int].response_groups@,
            )
            &&& draws.len() == order.len()
            &&& answers(before, after, stores_before, stores_after, rule, order, draws, hit)
        },
    }
}

/// The stores when the search begins: the character and the world as they
/// were handed in, and the encoder after it has learnt the strings of the
/// request, the character and the world.
pub open spec fn stores_at_start(
    names: Seq<Seq<u8>>,
    request: Seq<(Seq<u8>, ValueView)>,
    character: Seq<(Seq<u8>, ValueView)>,
    world: Seq<(Seq<u8>, ValueView)>,
) -> Stores {
    Stores {
        character,
        world,
        names: after_seeing_bags(names, seq![request, character, world]),
    }
}

/// What a call of `find_best_response` does, whatever the random source
/// hands out: the encoder first learns the strings of the request, the
/// character and the world, and then the call goes one of the ways that
/// `goes` describes.
pub open spec fn responds(
    before: ResponseEngine,
    after: ResponseEngine,
    request: Seq<(Seq<u8>, ValueView)>,
    character_before: Seq<(Seq<u8>, ValueView)>,
    world_before: Seq<(Seq<u8>, ValueView)>,
    character_after: Seq<(Seq<u8>, ValueView)>,
    world_after: Seq<(Seq<u8>, ValueView)>,
    hit: Option<(usize, usize)>,
) -> bool {
    exists|
        choices: Seq<Seq<usize>>,
        chosen: Option<(usize, usize)>,
        order: Seq<usize>,
        draws: Seq<u32>,
    |
        #[trigger] goes(
            before,
            after,
            request,
            stores_at_start(before.encoder@, request, character_before, world_before),
            Stores { character: character_after, world: world_after, names: after.encoder@ },
            choices,
            chosen,
            order,
            draws,
            hit,
        )
}

impl ResponseEngine {
    /// One of the rules that match the query with the best score, chosen at
    /// random, or nothing where no rule matches.
    pub fn find_best_matching_rule(&self, query: &mut Query, rng: &mut ThreadRng) -> (r: Option<
        (usize, usize),
    >)
        requires
            old(query).wf(),
            all_ascending(old(query).bags()),
            self.rules_wf(),
            names_ascending(self.rules.vars@),
        ensures
            final(query).wf(),
            final(query).bags() == old(query).bags(),
            exists|choices: Seq<Seq<usize>>|
                lists_all_choices(
                    choices,
                    assignments(
                        self.rules.vars@,
                        old(query).bags(),
                        self.rules.vars@.len() as int,
                    ).len() as int,
                ) && match r {
                    Some(rule) => (#[trigger] best_rules(*self, old(query).bags(), choices)).contains(
                        rule,
                    ) && rule.0 < self.rules.partitions@.len() && rule.1
                        < self.rules.partitions@[rule.0 as int].rules@.len(),
                    None => best_rules(*self, old(query).bags(), choices).len() == 0,
                },
    {
        let keys = self.rules.get_partition_keys_for_query(query);
        let best = self.best_rules_for_keys(query, &keys);
        let chosen = chance::choose_pair(rng, &best);
        proof {
            let bags = old(query).bags();
            let all = assignments(self.rules.vars@, bags, self.rules.vars@.len() as int);
            let choices = choose|choices: Seq<Seq<usize>>|
                lists_all_choices(choices, all.len() as int) && keys@ == #[trigger] keys_for(
                    all,
                    choices,
                );
            assert(best@ == best_rules(*self, bags, choices));
            if chosen.is_some() {
                let rule = chosen.unwrap();
                let i = choose|i: int| 0 <= i < best@.len() && best@[i] == rule;
                assert(best@[i].0 < self.rules.partitions@.len());
            }
        }
        chosen
    }

    /// Finds the rule that answers a request best, carries out its
    /// instructions on the character and the world, and gives one response
    /// from one of its response groups.
    pub fn find_best_response(
        &mut self,
        request: &Props,
        character: &mut Props,
        world: &mut Props,
        rng: &mut ThreadRng,
    ) -> (r: Option<&Response>)
        requires
            old(self).wf(),
            request.wf(),
            old(character).wf(),
            old(world).wf(),
        ensures
            final(self).wf(),
            final(character).wf(),
            final(world).wf(),
            exists|hit: Option<(usize, usize)>|
                #[trigger] responds(
                    *old(self),
                    *final(self),
                    request@,
                    old(character)@,
                    old(world)@,
                    final(character)@,
                    final(world)@,
                    hit,
                ) && match hit {
                    Some((g, i)) => g < final(self).response_groups@.len() && i
                        < final(self).response_groups@[g as int].responses@.len() && r == Some(
                        &final(self).response_groups@[g as int].responses@[i as int],
                    ),
                    None => r.is_none(),
                },
    {
        let ghost names = after_seeing_bags(self.encoder@, seq![request@, character@, world@]);
        let ghost stores = stores_at_start(self.encoder@, request@, character@, world@);
        let ghost bags = query_bags(names, request@, character@, world@);
        let mut list: Vec<&Props> = Vec::new();
        list.push(request);
        list.push(&*character);
        list.push(&*world);
        let mut query = Query::build(&list, &mut self.encoder);
        proof {
            assert(Seq::new(list@.len(), |k: int| list@[k]@) =~= seq![
                request@,
                character@,
                world@,
            ]);
            assert(query.bags() =~= bags) by {
                assert forall|k: int| 0 <= k < 3 implies #[trigger] query.bags()[k] == bags[k] by {
                    assert(encoded_entries(names, list@[k]@, query.bags()[k]));
                    assert(query.bags()[k] =~= encoded_bag(names, list@[k]@));
                }
            }
            assert forall|k: int| 0 <= k < bags.len() implies ascending(#[trigger] bags[k]) by {
                assert(ascending(list@[k]@));
                assert forall|i: int, j: int| 0 <= i < j < bags[k].len() implies precedes(
                    #[trigger] bags[k][i].0,
                    #[trigger] bags[k][j].0,
                ) by {
                    assert(precedes(list@[k]@[i].0, list@[k]@[j].0));
                }
            }
        }
        let chosen = self.find_best_matching_rule(&mut query, rng);
        let ghost choices = choose|choices: Seq<Seq<usize>>|
            lists_all_choices(
                choices,
                assignments(self.rules.vars@, bags, self.rules.vars@.len() as int).len() as int,
            ) && match chosen {
                Some(rule) => (#[trigger] best_rules(*self, bags, choices)).contains(rule)
                    && rule.0 < self.rules.partitions@.len() && rule.1
                    < self.rules.partitions@[rule.0 as int].rules@.len(),
                None => best_rules(*self, bags, choices).len() == 0,
            };
        let ghost middle = *self;
        assert(best_rules(middle, bags, choices) == best_rules(*old(self), bags, choices));
        match chosen {
            None => {
                proof {
                    assert(goes(
                        *old(self),
                        *self,
                        request@,
                        stores,
                        Stores { character: character@, world: world@, names: self.encoder@ },
                        choices,
                        None,
                        Seq::<usize>::empty(),
                        Seq::<u32>::empty(),
                        None,
                    ));
                    assert(responds(
                        *old(self),
                        *self,
                        request@,
                        old(character)@,
                        old(world)@,
                        character@,
                        world@,
                        None,
                    ));
                }
                None
            },
            Some(rule) => {
                assert(partition_wf(
                    self.criteria@,
                    self.response_groups@.len() as int,
                    self.rules.partitions@[rule.0 as int],
                ));
                let groups = &self.rules.partitions[rule.0].rules[rule.1].response_groups;
                let mut order: Vec<usize> = Vec::new();
                let mut draws: Vec<u32> = Vec::new();
                let mut k: usize = 0;
                while k < groups.len()
                    invariant
                        k <= groups@.len(),
                        order@ == groups@.take(k as int),
                        draws@.len() == k,
                    decreases groups@.len() - k,
                {
                    order.push(groups[k]);
                    draws.push(chance::draw(rng));
                    k += 1;
                    assert(order@ =~= groups@.take(k as int));
                }
                assert(groups@.take(groups@.len() as int) =~= groups@);
                let ghost listed = groups@;
                chance::shuffle(rng, &mut order);
                proof {
                    assert(order@.len() == listed.len()) by {
                        order@.to_multiset_ensures();
                        listed.to_multiset_ensures();
                    }
                    assert forall|i: int| 0 <= i < order@.len() implies (#[trigger] order@[i] as int)
                        < self.response_groups@.len() by {
                        order@.to_multiset_ensures();
                        listed.to_multiset_ensures();
                        assert(order@.to_multiset().count(order@[i]) > 0);
                        assert(listed.contains(order@[i]));
                        let j = choose|j: int| 0 <= j < listed.len() && listed[j] == order@[i];
                        assert(listed[j] < self.response_groups@.len());
                    }
                }
                let hit = self.respond_with(rule, &order, &draws, character, world);
                proof {
                    assert(answers(
                        *old(self),
                        *self,
                        stores,
                        Stores { character: character@, world: world@, names: self.encoder@ },
                        rule,
                        order@,
                        draws@,
                        hit,
                    ));
                    assert(goes(
                        *old(self),
                        *self,
                        request@,
                        stores,
                        Stores { character: character@, world: world@, names: self.encoder@ },
                        choices,
                        Some(rule),
                        order@,
                        draws@,
                        hit,
                    ));
                    assert(responds(
                        *old(self),
                        *self,
                        request@,
                        old(character)@,
                        old(world)@,
                        character@,
                        world@,
                        hit,
                    ));
                }
                match hit {
                    Some((g, i)) => Some(&self.response_groups[g].responses[i]),
                    None => None,
                }
            },
        }
    }
}

/// A rule that tests no criterion matches every query as long as it is
/// enabled.
pub proof fn lemma_rule_without_criteria_matches(
    criteria: Seq<EngineCriterion>,
    rule: EngineRule,
    bags: Seq<Seq<(Seq<u8>, u32)>>,
)
    requires
        rule.criteria@.len() == 0,
        rule.enabled,
    ensures
        rule_matches(criteria, rule, bags),
{
}

/// An engine, a chosen rule, an order of its response groups and the draws
/// determine the answer, the stores afterwards and the engine afterwards:
/// two calls that agree on these agree on what comes out.
pub proof fn lemma_answers_deterministic(
    before: ResponseEngine,
    one: ResponseEngine,
    two: ResponseEngine,
    stores_before: Stores,
    stores_one: Stores,
    stores_two: Stores,
    chosen: (usize, usize),
    order: Seq<usize>,
    draws: Seq<u32>,
    hit_one: Option<(usize, usize)>,
    hit_two: Option<(usize, usize)>,
)
    requires
        answers(before, one, stores_before, stores_one, chosen, order, draws, hit_one),
        answers(before, two, stores_before, stores_two, chosen, order, draws, hit_two),
    ensures
        hit_one == hit_two,
        stores_one == stores_two,
        one.criteria == two.criteria,
        one.rules.vars == two.rules.vars,
        dispatchers(one.response_groups@) == dispatchers(two.response_groups@),
        forall|g: int|
            0 <= g < before.response_groups@.len() ==> (#[trigger] one.response_groups@[g]).responses
                == two.response_groups@[g].responses,
        forall|p: int, r: int|
            0 <= p < before.rules.partitions@.len() && 0 <= r
                < before.rules.partitions@[p].rules@.len()
                ==> #[trigger] one.rules.partitions@[p].rules@[r]
                == two.rules.partitions@[p].rules@[r],
{
    assert forall|g: int| 0 <= g < before.response_groups@.len() implies (
    #[trigger] one.response_groups@[g]).responses == two.response_groups@[g].responses by {
        assert(one.response_groups@[g].responses == before.response_groups@[g].responses);
        assert(two.response_groups@[g].responses == before.response_groups@[g].responses);
    }
}

/// A call goes one way once the subsets, the chosen rule, the order of its
/// response groups and the draws are fixed: two calls on the same engine
/// and the same stores that agree on these give the same answer and leave
/// the same stores.
pub proof fn lemma_goes_deterministic(
    before: ResponseEngine,
    one: ResponseEngine,
    two: ResponseEngine,
    request: Seq<(Seq<u8>, ValueView)>,
    stores_before: Stores,
    stores_one: Stores,
    stores_two: Stores,
    choices: Seq<Seq<usize>>,
    chosen: Option<(usize, usize)>,
    order: Seq<usize>,
    draws: Seq<u32>,
    hit_one: Option<(usize, usize)>,
    hit_two: Option<(usize, usize)>,
)
    requires
        goes(
            before,
            one,
            request,
            stores_before,
            stores_one,
            choices,
            chosen,
            order,
            draws,
            hit_one,
        ),
        goes(
            before,
            two,
            request,
            stores_before,
            stores_two,
            choices,
            chosen,
            order,
            draws,
            hit_two,
        ),
    ensures
        hit_one == hit_two,
        stores_one == stores_two,
        dispatchers(one.response_groups@) == dispatchers(two.response_groups@),
{
    match chosen {
        Some(rule) => {
            lemma_answers_deterministic(
                before,
                one,
                two,
                stores_before,
                stores_one,
                stores_two,
                rule,
                order,
                draws,
                hit_one,
                hit_two,
            );
        },
        None => {},
    }
}

/// In a list that is in descending order of score no rule scores less than
/// a rule after it, as long as neither score is a NaN.
pub proof fn lemma_scores_do_not_increase(rules: Seq<EngineRule>, i: int, j: int)
    requires
        by_descending_score(rules),
        0 <= i < j < rules.len(),
        !num::is_nan(rules[i].score),
        !num::is_nan(rules[j].score),
    ensures
        num::le(rules[j].score, rules[i].score),
        !num::lt(rules[i].score, rules[j].score),
{
    num::lemma_total_rank_refines_rank(rules[j].score, rules[i].score);
}

/// Each assignment that a query makes to partition variables is a variable
/// that the query gives a value, with that value.
pub proof fn lemma_assignments_are_given(
    vars: Seq<Name>,
    bags: Seq<Seq<(Seq<u8>, u32)>>,
    n: int,
    i: int,
)
    requires
        0 <= i < assignments(vars, bags, n).len(),
    ensures
        first_hit(bags, assignments(vars, bags, n)[i].0) == Some(assignments(vars, bags, n)[i].1),
    decreases n,
{
    if 0 < n <= vars.len() {
        let before = assignments(vars, bags, n - 1);
        if i < before.len() {
            lemma_assignments_are_given(vars, bags, n - 1, i);
        }
    }
}

/// The buckets that are scanned for a query are those of the subsets of
/// its assignments, and each assignment of such a subset is a variable that
/// the query gives a value, with that value: a rule whose partition
/// criteria ask for exactly these values is found only by queries that
/// give them.
pub proof fn lemma_selected_are_given(
    vars: Seq<Name>,
    bags: Seq<Seq<(Seq<u8>, u32)>>,
    choice: Seq<usize>,
    i: int,
)
    requires
        is_choice(choice, assignments(vars, bags, vars.len() as int).len() as int),
        0 <= i < choice.len(),
    ensures
        first_hit(bags, selected(assignments(vars, bags, vars.len() as int), choice)[i].0) == Some(
            selected(assignments(vars, bags, vars.len() as int), choice)[i].1,
        ),
{
    lemma_assignments_are_given(vars, bags, vars.len() as int, choice[i] as int);
}

} // verus!
