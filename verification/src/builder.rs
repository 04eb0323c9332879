//! Putting an engine together from the definitions of a script.
use crate::compiler::bounds;
use crate::compiler::error_views;
use crate::compiler::fresh_dispatcher;
use crate::compiler::group_errors;
use crate::compiler::group_weights;
use crate::compiler::groups_in_range;
use crate::compiler::index_in_range;
use crate::compiler::instruction_usages;
use crate::compiler::last_wins;
use crate::compiler::missing_groups;
use crate::compiler::resolved;
use crate::compiler::resolved_groups;
use crate::compiler::values_of;
use crate::compiler::names_after;
use crate::compiler::recorded;
use crate::compiler::weight_key;
use crate::compiler::usage_views;
use crate::compiler::CompileError;
use crate::compiler::CompileErrorView;
use crate::compiler::Context;
use crate::compiler::LocationView;
use crate::compiler::UsageView;
use crate::compiler::VariableUsage;
use crate::engine::by_descending_score;
use crate::engine::group_wf;
use crate::engine::lemma_partition_at;
use crate::engine::partition_at;
use crate::engine::partition_wf;
use crate::engine::rule_wf;
use crate::engine::EngineRule;
use crate::engine::Partition;
use crate::engine::ResponseEngine;
use crate::engine::RulePartitions;
use crate::hashing::key_of;
use crate::hashing::partition_key;
use crate::engine::EngineCriterion;
use crate::engine::EngineResponseGroup;
use crate::model::Criterion;
use crate::model::ResponseGroup;
use crate::model::Rule;
use crate::name::precedes;
use crate::name::Name;
use crate::num;
use crate::props::ascending;
use crate::props::holds;
use crate::props::lookup;
use crate::props::lemma_updated_at_end;
use crate::props::updated;
use crate::props::without;
use crate::table::Table;
use vstd::prelude::*;

verus! {

/// The strings that the encoder knows after the first `n` criteria were
/// compiled.
pub open spec fn strings_after(
    names: Seq<Seq<u8>>,
    criteria: Seq<(Seq<u8>, Criterion)>,
    n: int,
) -> Seq<Seq<u8>>
    decreases n,
{
    if n <= 0 || n > criteria.len() {
        names
    } else {
        names_after(strings_after(names, criteria, n - 1), criteria[n - 1].1.predicate)
    }
}

/// The uses of variables that the first `n` criteria make.
pub open spec fn criteria_usages(criteria: Seq<(Seq<u8>, Criterion)>, n: int) -> Seq<
    (Seq<u8>, UsageView),
>
    decreases n,
{
    if n <= 0 || n > criteria.len() {
        Seq::<(Seq<u8>, UsageView)>::empty()
    } else {
        criteria_usages(criteria, n - 1).push(
            (
                criteria[n - 1].1.variable@,
                UsageView {
                    infered_type: criteria[n - 1].1.predicate.used_as(),
                    location: LocationView::Criterion(criteria[n - 1].0),
                },
            ),
        )
    }
}

/// A compiled criterion can partition: it asks for one exact value of a
/// partition variable.
pub open spec fn can_partition(criterion: EngineCriterion, partition_variables: Seq<(Seq<u8>, ())>) -> bool {
    num::eq(criterion.min, criterion.max) && holds(partition_variables, criterion.variable@)
}

/// The index of the first `n` criteria: under the name of each its place,
/// its weight and whether it can partition.
pub open spec fn criteria_index(
    criteria: Seq<(Seq<u8>, Criterion)>,
    compiled: Seq<EngineCriterion>,
    partition_variables: Seq<(Seq<u8>, ())>,
    n: int,
) -> Seq<(Seq<u8>, (usize, u32, bool))> {
    Seq::new(
        n as nat,
        |i: int|
            (
                criteria[i].0,
                (i as usize, criteria[i].1.weight, can_partition(compiled[i], partition_variables)),
            ),
    )
}

/// Each of the first `n` compiled criteria is on the variable of the
/// criterion it was compiled from, with the bounds of its predicate under
/// the strings known when it was compiled.
pub open spec fn criteria_compiled(
    names: Seq<Seq<u8>>,
    criteria: Seq<(Seq<u8>, Criterion)>,
    compiled: Seq<EngineCriterion>,
    n: int,
) -> bool {
    &&& compiled.len() == n
    &&& forall|i: int|
        0 <= i < n ==> (#[trigger] compiled[i]).variable@ == criteria[i].1.variable@ && (
            compiled[i].min,
            compiled[i].max,
        ) == bounds(criteria[i].1.predicate, strings_after(names, criteria, i + 1))
}

/// Compiles the criteria in ascending order of their names and builds
/// their index.
pub fn compile_criteria(
    criteria: Table<Criterion>,
    partition_variables: &Table<()>,
    ctx: &mut Context,
) -> (r: (Vec<EngineCriterion>, Table<(usize, u32, bool)>))
    requires
        criteria.wf(),
        partition_variables.wf(),
        old(ctx).encoder.wf(),
    ensures
        final(ctx).encoder.wf(),
        final(ctx).encoder@ == strings_after(old(ctx).encoder@, criteria@, criteria@.len() as int),
        final(ctx).errors == old(ctx).errors,
        recorded(final(ctx).variable_usages@) == recorded(old(ctx).variable_usages@)
            + criteria_usages(criteria@, criteria@.len() as int),
        criteria_compiled(old(ctx).encoder@, criteria@, r.0@, criteria@.len() as int),
        r.1.wf(),
        r.1@ == criteria_index(criteria@, r.0@, partition_variables@, criteria@.len() as int),
        index_in_range(r.1@, r.0@.len() as int),
{
    let ghost listed = criteria@;
    let ghost names = ctx.encoder@;
    let ghost usages_before = recorded(ctx.variable_usages@);
    let mut rest = criteria.into_reversed();
    let total = rest.len();
    let mut compiled: Vec<EngineCriterion> = Vec::new();
    let mut index: Table<(usize, u32, bool)> = Table::new();
    assert(recorded(ctx.variable_usages@) =~= usages_before + criteria_usages(listed, 0));
    assert(index@ =~= criteria_index(listed, compiled@, partition_variables@, 0));
    while rest.len() > 0
        invariant
            total == listed.len(),
            rest@.len() <= total,
            ascending(listed),
            partition_variables.wf(),
            forall|j: int|
                0 <= j < rest@.len() ==> (#[trigger] rest@[j]).0@ == listed[total - 1 - j].0
                    && rest@[j].1 == listed[total - 1 - j].1,
            ctx.encoder.wf(),
            ctx.encoder@ == strings_after(names, listed, total - rest@.len()),
            ctx.errors == old(ctx).errors,
            recorded(ctx.variable_usages@) == usages_before + criteria_usages(
                listed,
                total - rest@.len(),
            ),
            criteria_compiled(names, listed, compiled@, total - rest@.len()),
            index.wf(),
            index@ == criteria_index(
                listed,
                compiled@,
                partition_variables@,
                total - rest@.len(),
            ),
        decreases rest@.len(),
    {
        let i = total - rest.len();
        let ghost usages_now = recorded(ctx.variable_usages@);
        let ghost compiled_now = compiled@;
        let ghost index_now = index@;
        let entry = rest.pop().unwrap();
        let name = entry.0;
        let criterion = entry.1;
        assert(name@ == listed[i as int].0 && criterion == listed[i as int].1);
        let weight = criterion.weight;
        let built = criterion.build(name.duplicate(), ctx);
        let partition = num::check_eq(built.min, built.max) && partition_variables.contains(
            &built.variable,
        );
        compiled.push(built);
        proof {
            assert forall|k: int| 0 <= k < index_now.len() implies precedes(
                #[trigger] index_now[k].0,
                name@,
            ) by {
                assert(precedes(listed[k].0, listed[i as int].0));
            }
            lemma_updated_at_end(index_now, name@, (i, weight, partition));
        }
        index.insert(name, (i, weight, partition));
        proof {
            assert(index@ =~= criteria_index(listed, compiled@, partition_variables@, i + 1)) by {
                assert forall|k: int| 0 <= k < i + 1 implies #[trigger] index@[k]
                    == criteria_index(listed, compiled@, partition_variables@, i + 1)[k] by {
                    if k < i {
                        assert(index@[k] == index_now[k]);
                        assert(compiled@[k] == compiled_now[k]);
                    }
                }
            }
            assert(recorded(ctx.variable_usages@) =~= usages_before + criteria_usages(
                listed,
                i + 1,
            ));
            assert forall|k: int| 0 <= k < i + 1 implies (#[trigger] compiled@[k]).variable@
                == listed[k].1.variable@ && (compiled@[k].min, compiled@[k].max) == bounds(
                listed[k].1.predicate,
                strings_after(names, listed, k + 1),
            ) by {
                if k < i {
                    assert(compiled@[k] == compiled_now[k]);
                }
            }
        }
    }
    (compiled, index)
}

/// The errors that the first `n` response groups give, group after group.
pub open spec fn all_group_errors(groups: Seq<(Seq<u8>, ResponseGroup)>, n: int) -> Seq<
    CompileErrorView,
>
    decreases n,
{
    if n <= 0 || n > groups.len() {
        Seq::<CompileErrorView>::empty()
    } else {
        all_group_errors(groups, n - 1) + group_errors(
            groups[n - 1].1.responses@,
            groups[n - 1].0,
            groups[n - 1].1.responses@.len() as int,
        )
    }
}

/// A compiled response group holds the responses of the group it was
/// compiled from, without their weights, and a dispatcher that has given
/// nothing yet.
pub open spec fn group_compiled(compiled: EngineResponseGroup, group: ResponseGroup) -> bool {
    &&& compiled.dispatcher@ == fresh_dispatcher(
        group.delivery,
        group_weights(group.responses@, group.responses@.len() as int),
    )
    &&& compiled.responses@.len() == group.responses@.len()
    &&& forall|i: int|
        0 <= i < group.responses@.len() ==> (#[trigger] compiled.responses@[i]).wf()
            && compiled.responses@[i]@ == without(group.responses@[i]@, weight_key())
    &&& group_wf(compiled)
}

/// The index of the first `n` response groups: under the name of each its
/// place.
pub open spec fn groups_index(groups: Seq<(Seq<u8>, ResponseGroup)>, n: int) -> Seq<
    (Seq<u8>, usize),
> {
    Seq::new(n as nat, |i: int| (groups[i].0, i as usize))
}

/// Every response of every group is a well-formed table.
pub open spec fn groups_wf(groups: Seq<(Seq<u8>, ResponseGroup)>) -> bool {
    forall|i: int| 0 <= i < groups.len() ==> (#[trigger] groups[i]).1.wf()
}

/// Compiles the response groups in ascending order of their names and
/// builds their index.
pub fn compile_groups(groups: Table<ResponseGroup>, ctx: &mut Context) -> (r: (
    Vec<EngineResponseGroup>,
    Table<usize>,
))
    requires
        groups.wf(),
        groups_wf(groups@),
    ensures
        final(ctx).encoder == old(ctx).encoder,
        final(ctx).variable_usages == old(ctx).variable_usages,
        error_views(final(ctx).errors@) == error_views(old(ctx).errors@) + all_group_errors(
            groups@,
            groups@.len() as int,
        ),
        r.0@.len() == groups@.len(),
        forall|i: int| 0 <= i < groups@.len() ==> group_compiled(#[trigger] r.0@[i], groups@[i].1),
        r.1.wf(),
        r.1@ == groups_index(groups@, groups@.len() as int),
        groups_in_range(r.1@, r.0@.len() as int),
{
    let ghost listed = groups@;
    let ghost errors_before = error_views(ctx.errors@);
    let mut rest = groups.into_reversed();
    let total = rest.len();
    let mut compiled: Vec<EngineResponseGroup> = Vec::new();
    let mut index: Table<usize> = Table::new();
    assert(error_views(ctx.errors@) =~= errors_before + all_group_errors(listed, 0));
    assert(index@ =~= groups_index(listed, 0));
    while rest.len() > 0
        invariant
            total == listed.len(),
            rest@.len() <= total,
            ascending(listed),
            groups_wf(listed),
            forall|j: int|
                0 <= j < rest@.len() ==> (#[trigger] rest@[j]).0@ == listed[total - 1 - j].0
                    && rest@[j].1 == listed[total - 1 - j].1,
            ctx.encoder == old(ctx).encoder,
            ctx.variable_usages == old(ctx).variable_usages,
            error_views(ctx.errors@) == errors_before + all_group_errors(
                listed,
                total - rest@.len(),
            ),
            compiled@.len() == total - rest@.len(),
            forall|k: int|
                0 <= k < compiled@.len() ==> group_compiled(#[trigger] compiled@[k], listed[k].1),
            index.wf(),
            index@ == groups_index(listed, total - rest@.len()),
        decreases rest@.len(),
    {
        let i = total - rest.len();
        let ghost compiled_now = compiled@;
        let ghost index_now = index@;
        let ghost errors_now = error_views(ctx.errors@);
        let entry = rest.pop().unwrap();
        let name = entry.0;
        let group = entry.1;
        assert(name@ == listed[i as int].0 && group == listed[i as int].1);
        assert(listed[i as int].1.wf());
        let built = group.build(&name, ctx);
        compiled.push(built);
        proof {
            assert forall|k: int| 0 <= k < index_now.len() implies precedes(
                #[trigger] index_now[k].0,
                name@,
            ) by {
                assert(precedes(listed[k].0, listed[i as int].0));
            }
            lemma_updated_at_end(index_now, name@, i);
        }
        index.insert(name, i);
        proof {
            assert(index@ =~= groups_index(listed, i + 1));
            assert forall|k: int| 0 <= k < compiled@.len() implies group_compiled(
                #[trigger] compiled@[k],
                listed[k].1,
            ) by {
                if k < i {
                    assert(compiled@[k] == compiled_now[k]);
                }
            }
            assert(error_views(ctx.errors@) =~= errors_before + all_group_errors(listed, i + 1));
        }
    }
    (compiled, index)
}

/// The place for a rule with the given score in a list of rules in
/// descending order of score: before the first rule from `from` on with a
/// lower score, or at the end.
pub open spec fn place_for(rules: Seq<EngineRule>, score: u32, from: int) -> int
    decreases rules.len() - from,
{
    if from < 0 || from >= rules.len() {
        rules.len() as int
    } else if num::total_rank(rules[from].score) < num::total_rank(score) {
        from
    } else {
        place_for(rules, score, from + 1)
    }
}

/// The place for a rule lies within the list or at its end; the rules
/// before it from `from` on score at least as much, and the rule at it
/// scores less.
pub proof fn lemma_place_for(rules: Seq<EngineRule>, score: u32, from: int)
    requires
        0 <= from <= rules.len(),
    ensures
        from <= place_for(rules, score, from) <= rules.len(),
        forall|i: int|
            from <= i < place_for(rules, score, from) ==> num::total_rank(
                (#[trigger] rules[i]).score,
            ) >= num::total_rank(score),
        place_for(rules, score, from) < rules.len() ==> num::total_rank(
            rules[place_for(rules, score, from)].score,
        ) < num::total_rank(score),
    decreases rules.len() - from,
{
    if from < rules.len() && num::total_rank(rules[from].score) >= num::total_rank(score) {
        lemma_place_for(rules, score, from + 1);
    }
}

/// Putting a rule at its place keeps a list in descending order of score.
pub proof fn lemma_insert_keeps_order(rules: Seq<EngineRule>, rule: EngineRule)
    requires
        by_descending_score(rules),
    ensures
        by_descending_score(rules.insert(place_for(rules, rule.score, 0), rule)),
{
    let at = place_for(rules, rule.score, 0);
    lemma_place_for(rules, rule.score, 0);
    let t = rules.insert(at, rule);
    assert forall|i: int, j: int| 0 <= i < j < t.len() implies num::total_rank(
        (#[trigger] t[i]).score,
    ) >= num::total_rank((#[trigger] t[j]).score) by {
        if j < at {
            assert(t[i] == rules[i] && t[j] == rules[j]);
        } else if j == at {
            assert(t[i] == rules[i]);
        } else if i < at {
            assert(t[i] == rules[i] && t[j] == rules[j - 1]);
        } else if i == at {
            assert(t[j] == rules[j - 1]);
            if j - 1 > at {
                assert(num::total_rank(rules[at].score) >= num::total_rank(rules[j - 1].score));
            }
        } else {
            assert(t[i] == rules[i - 1] && t[j] == rules[j - 1]);
        }
    }
}

/// No two partitions share a key.
pub open spec fn keys_distinct(partitions: Seq<Partition>) -> bool {
    forall|p: int, q: int|
        0 <= p < q < partitions.len() ==> (#[trigger] partitions[p]).key != (
        #[trigger] partitions[q]).key
}

/// Where no partition is found for a key, no partition has the key.
pub proof fn lemma_partition_absent(partitions: Seq<Partition>, key: u64, from: int)
    requires
        0 <= from,
        partition_at(partitions, key, from).is_none(),
    ensures
        forall|q: int| from <= q < partitions.len() ==> (#[trigger] partitions[q]).key != key,
    decreases partitions.len() - from,
{
    if from < partitions.len() {
        lemma_partition_absent(partitions, key, from + 1);
    }
}

/// Puts a rule into the partition with the given key, at its place in the
/// order of scores, and gives the place of the partition and the place of
/// the rule in it. A key that has no partition yet gets a new one at the
/// end.
pub fn place_rule(partitions: &mut Vec<Partition>, key: u64, rule: EngineRule) -> (r: (
    usize,
    usize,
))
    ensures
        r.0 < final(partitions)@.len(),
        final(partitions)@[r.0 as int].key == key,
        forall|q: int|
            0 <= q < old(partitions)@.len() && q != r.0 ==> #[trigger] final(partitions)@[q]
                == old(partitions)@[q],
        match partition_at(old(partitions)@, key, 0) {
            Some(p) => {
                &&& r.0 == p
                &&& final(partitions)@.len() == old(partitions)@.len()
                &&& r.1 == place_for(old(partitions)@[p].rules@, rule.score, 0)
                &&& final(partitions)@[p].rules@ == old(partitions)@[p].rules@.insert(
                    r.1 as int,
                    rule,
                )
            },
            None => {
                &&& r.0 == old(partitions)@.len()
                &&& final(partitions)@.len() == old(partitions)@.len() + 1
                &&& r.1 == 0
                &&& final(partitions)@[r.0 as int].rules@ == seq![rule]
            },
        },
{
    let mut p: usize = 0;
    while p < partitions.len()
        invariant
            p <= partitions@.len(),
            *partitions == *old(partitions),
            partition_at(partitions@, key, 0) == partition_at(partitions@, key, p as int),
        ensures
            p <= partitions@.len(),
            *partitions == *old(partitions),
            p < partitions@.len() ==> partition_at(partitions@, key, 0) == Some(p as int),
            p == partitions@.len() ==> partition_at(partitions@, key, 0).is_none(),
        decreases partitions@.len() - p,
    {
        if partitions[p].key == key {
            break;
        }
        p += 1;
    }
    proof {
        lemma_partition_at(partitions@, key, 0);
    }
    if p < partitions.len() {
        let ghost rules = partitions@[p as int].rules@;
        let rank = num::total_rank_of(rule.score);
        let mut at: usize = 0;
        while at < partitions[p].rules.len()
            invariant
                at <= rules.len(),
                p < partitions@.len(),
                *partitions == *old(partitions),
                rules == partitions@[p as int].rules@,
                rank == num::total_rank(rule.score),
                place_for(rules, rule.score, 0) == place_for(rules, rule.score, at as int),
            ensures
                at <= rules.len(),
                p < partitions@.len(),
                *partitions == *old(partitions),
                rules == partitions@[p as int].rules@,
                at == place_for(rules, rule.score, 0),
            decreases rules.len() - at,
        {
            if num::total_rank_of(partitions[p].rules[at].score) < rank {
                break;
            }
            at += 1;
        }
        partitions[p].rules.insert(at, rule);
        (p, at)
    } else {
        let mut rules: Vec<EngineRule> = Vec::new();
        rules.push(rule);
        assert(rules@ =~= seq![rule]);
        partitions.push(Partition { key, rules });
        (p, 0)
    }
}

/// A compiled rule is what compiling the rule of the given name gives, and
/// the key is that of the values which the rule asks of partition
/// variables.
pub open spec fn rule_compiled(
    compiled: EngineRule,
    key: u64,
    name: Seq<u8>,
    rule: Rule,
    all: Seq<EngineCriterion>,
    cindex: Seq<(Seq<u8>, (usize, u32, bool))>,
    gindex: Seq<(Seq<u8>, usize)>,
) -> bool {
    let done = resolved(rule.criteria@, rule.criteria@.len() as int, name, all, cindex);
    &&& compiled.criteria@ == values_of(done.tested)
    &&& compiled.score == done.score
    &&& key == key_of(done.assigned)
    &&& compiled.response_groups@ == resolved_groups(
        rule.response_groups@,
        rule.response_groups@.len() as int,
        gindex,
    )
    &&& compiled.instructions@ == last_wins(rule.instructions@, 0)
    &&& compiled.enabled
}

/// Some rule among the first `n` stands at the given place.
pub open spec fn is_place(places: Seq<(int, int)>, n: int, place: (int, int)) -> bool {
    exists|j: int| 0 <= j < n && j < places.len() && #[trigger] places[j] == place
}

/// The first `n` rules stand compiled in the partitions, the `j`-th at
/// `places[j]`, no two at the same place, and the partitions hold nothing
/// else.
pub open spec fn rules_placed(
    partitions: Seq<Partition>,
    places: Seq<(int, int)>,
    rules: Seq<(Seq<u8>, Rule)>,
    n: int,
    all: Seq<EngineCriterion>,
    cindex: Seq<(Seq<u8>, (usize, u32, bool))>,
    gindex: Seq<(Seq<u8>, usize)>,
) -> bool {
    &&& places.len() == n
    &&& forall|j: int|
        0 <= j < n ==> 0 <= (#[trigger] places[j]).0 < partitions.len() && 0 <= places[j].1
            < partitions[places[j].0].rules@.len() && rule_compiled(
            partitions[places[j].0].rules@[places[j].1],
            partitions[places[j].0].key,
            rules[j].0,
            rules[j].1,
            all,
            cindex,
            gindex,
        )
    &&& forall|j: int, k: int| 0 <= j < k < n ==> #[trigger] places[j] != #[trigger] places[k]
    &&& forall|p: int, r: int|
        0 <= p < partitions.len() && 0 <= r < partitions[p].rules@.len() ==> #[trigger] is_place(
            places,
            n,
            (p, r),
        )
}

/// The errors that the first `n` rules give, rule after rule: for each
/// first those of its criteria, then those of its response groups.
pub open spec fn all_rule_errors(
    rules: Seq<(Seq<u8>, Rule)>,
    n: int,
    all: Seq<EngineCriterion>,
    cindex: Seq<(Seq<u8>, (usize, u32, bool))>,
    gindex: Seq<(Seq<u8>, usize)>,
) -> Seq<CompileErrorView>
    decreases n,
{
    if n <= 0 || n > rules.len() {
        Seq::<CompileErrorView>::empty()
    } else {
        all_rule_errors(rules, n - 1, all, cindex, gindex) + resolved(
            rules[n - 1].1.criteria@,
            rules[n - 1].1.criteria@.len() as int,
            rules[n - 1].0,
            all,
            cindex,
        ).errors + missing_groups(
            rules[n - 1].1.response_groups@,
            rules[n - 1].1.response_groups@.len() as int,
            rules[n - 1].0,
            gindex,
        )
    }
}

/// The uses of variables that the instructions of the first `n` rules make.
pub open spec fn all_rule_usages(rules: Seq<(Seq<u8>, Rule)>, n: int) -> Seq<(Seq<u8>, UsageView)>
    decreases n,
{
    if n <= 0 || n > rules.len() {
        Seq::<(Seq<u8>, UsageView)>::empty()
    } else {
        all_rule_usages(rules, n - 1) + instruction_usages(
            rules[n - 1].1.instructions@,
            rules[n - 1].1.instructions@.len() as int,
            rules[n - 1].0,
        )
    }
}

/// Every partition is well formed.
pub open spec fn partitions_wf(
    partitions: Seq<Partition>,
    all: Seq<EngineCriterion>,
    groups: int,
) -> bool {
    forall|p: int| 0 <= p < partitions.len() ==> partition_wf(all, groups, #[trigger] partitions[p])
}

/// The places of the rules after one more rule was put at `(p, at)`: the
/// rules behind it in its partition have moved on by one.
pub open spec fn moved_places(places: Seq<(int, int)>, p: int, at: int) -> Seq<(int, int)> {
    Seq::new(
        places.len(),
        |j: int|
            if places[j].0 == p && places[j].1 >= at {
                (p, places[j].1 + 1)
            } else {
                places[j]
            },
    ).push((p, at))
}

/// Compiles the rules in ascending order of their names and puts each into
/// the partition of the values that it asks of partition variables, the
/// rules of a partition in descending order of score.
pub fn compile_rules(
    rules: Table<Rule>,
    ctx: &mut Context,
    all_criteria: &Vec<EngineCriterion>,
    criteria_index: &Table<(usize, u32, bool)>,
    response_groups_index: &Table<usize>,
    groups: usize,
) -> (r: Vec<Partition>)
    requires
        rules.wf(),
        criteria_index.wf(),
        response_groups_index.wf(),
        index_in_range(criteria_index@, all_criteria@.len() as int),
        groups_in_range(response_groups_index@, groups as int),
    ensures
        final(ctx).encoder == old(ctx).encoder,
        recorded(final(ctx).variable_usages@) == recorded(old(ctx).variable_usages@)
            + all_rule_usages(rules@, rules@.len() as int),
        error_views(final(ctx).errors@) == error_views(old(ctx).errors@) + all_rule_errors(
            rules@,
            rules@.len() as int,
            all_criteria@,
            criteria_index@,
            response_groups_index@,
        ),
        keys_distinct(r@),
        partitions_wf(r@, all_criteria@, groups as int),
        exists|places: Seq<(int, int)>|
            #[trigger] rules_placed(
                r@,
                places,
                rules@,
                rules@.len() as int,
                all_criteria@,
                criteria_index@,
                response_groups_index@,
            ),
{
    let ghost listed = rules@;
    let ghost all = all_criteria@;
    let ghost cindex = criteria_index@;
    let ghost gindex = response_groups_index@;
    let ghost usages_before = recorded(ctx.variable_usages@);
    let ghost errors_before = error_views(ctx.errors@);
    let mut rest = rules.into_reversed();
    let total = rest.len();
    let mut partitions: Vec<Partition> = Vec::new();
    let ghost mut places: Seq<(int, int)> = Seq::empty();
    assert(recorded(ctx.variable_usages@) =~= usages_before + all_rule_usages(listed, 0));
    assert(error_views(ctx.errors@) =~= errors_before + all_rule_errors(
        listed,
        0,
        all,
        cindex,
        gindex,
    ));
    while rest.len() > 0
        invariant
            total == listed.len(),
            rest@.len() <= total,
            all == all_criteria@,
            cindex == criteria_index@,
            gindex == response_groups_index@,
            criteria_index.wf(),
            response_groups_index.wf(),
            index_in_range(cindex, all.len() as int),
            groups_in_range(gindex, groups as int),
            forall|j: int|
                0 <= j < rest@.len() ==> (#[trigger] rest@[j]).0@ == listed[total - 1 - j].0
                    && rest@[j].1 == listed[total - 1 - j].1,
            ctx.encoder == old(ctx).encoder,
            recorded(ctx.variable_usages@) == usages_before + all_rule_usages(
                listed,
                total - rest@.len(),
            ),
            error_views(ctx.errors@) == errors_before + all_rule_errors(
                listed,
                total - rest@.len(),
                all,
                cindex,
                gindex,
            ),
            keys_distinct(partitions@),
            partitions_wf(partitions@, all, groups as int),
            rules_placed(partitions@, places, listed, total - rest@.len(), all, cindex, gindex),
        decreases rest@.len(),
    {
        let i = total - rest.len();
        let entry = rest.pop().unwrap();
        let name = entry.0;
        let rule = entry.1;
        assert(name@ == listed[i as int].0 && rule == listed[i as int].1);
        let ghost usages_now = recorded(ctx.variable_usages@);
        let ghost errors_now = error_views(ctx.errors@);
        let built = rule.build(&name, ctx, all_criteria, criteria_index, response_groups_index);
        let compiled = built.0;
        let key = partition_key(&built.1);
        let ghost before = partitions@;
        let ghost old_places = places;
        proof {
            lemma_partition_at(before, key, 0);
            if partition_at(before, key, 0).is_none() {
                lemma_partition_absent(before, key, 0);
            }
            assert(rule_wf(all, groups as int, compiled));
        }
        let put = place_rule(&mut partitions, key, compiled);
        proof {
            let p = put.0 as int;
            let at = put.1 as int;
            let after = partitions@;
            places = moved_places(old_places, p, at);
            assert(recorded(ctx.variable_usages@) =~= usages_before + all_rule_usages(
                listed,
                i + 1,
            ));
            assert(error_views(ctx.errors@) =~= errors_before + all_rule_errors(
                listed,
                i + 1,
                all,
                cindex,
                gindex,
            ));
            // The keys stay distinct.
            assert forall|x: int, y: int| 0 <= x < y < after.len() implies (#[trigger] after[x]).key
                != (#[trigger] after[y]).key by {
                if x != p && x < before.len() {
                    assert(after[x] == before[x]);
                }
                if y != p && y < before.len() {
                    assert(after[y] == before[y]);
                }
                if x < before.len() && y < before.len() {
                    assert(before[x].key != before[y].key);
                    if partition_at(before, key, 0).is_some() {
                        assert(before[p].key == key);
                    }
                }
            }
            // The partitions stay well formed.
            assert forall|q: int| 0 <= q < after.len() implies partition_wf(
                all,
                groups as int,
                #[trigger] after[q],
            ) by {
                if q != p {
                    assert(after[q] == before[q]);
                    assert(partition_wf(all, groups as int, before[q]));
                } else if partition_at(before, key, 0).is_some() {
                    assert(partition_wf(all, groups as int, before[p]));
                    lemma_insert_keeps_order(before[p].rules@, compiled);
                    lemma_place_for(before[p].rules@, compiled.score, 0);
                    assert forall|x: int| 0 <= x < after[p].rules@.len() implies rule_wf(
                        all,
                        groups as int,
                        #[trigger] after[p].rules@[x],
                    ) by {
                        if x < at {
                            assert(after[p].rules@[x] == before[p].rules@[x]);
                        } else if x > at {
                            assert(after[p].rules@[x] == before[p].rules@[x - 1]);
                        }
                    }
                } else {
                    assert(after[p].rules@ == seq![compiled]);
                }
            }
            // Every rule so far stands at its place.
            assert forall|j: int| 0 <= j < i + 1 implies 0 <= (#[trigger] places[j]).0
                < after.len() && 0 <= places[j].1 < after[places[j].0].rules@.len()
                && rule_compiled(
                after[places[j].0].rules@[places[j].1],
                after[places[j].0].key,
                listed[j].0,
                listed[j].1,
                all,
                cindex,
                gindex,
            ) by {
                if j < i {
                    let was = old_places[j];
                    assert(0 <= was.0 < before.len() && 0 <= was.1 < before[was.0].rules@.len());
                    if was.0 != p {
                        assert(after[was.0] == before[was.0]);
                    } else {
                        assert(partition_at(before, key, 0).is_some());
                        lemma_place_for(before[p].rules@, compiled.score, 0);
                        if was.1 >= at {
                            assert(after[p].rules@[was.1 + 1] == before[p].rules@[was.1]);
                        } else {
                            assert(after[p].rules@[was.1] == before[p].rules@[was.1]);
                        }
                    }
                } else {
                    if partition_at(before, key, 0).is_some() {
                        lemma_place_for(before[p].rules@, compiled.score, 0);
                    }
                    assert(after[p].rules@[at] == compiled);
                }
            }
            // No two rules stand at the same place.
            assert forall|j: int, k: int| 0 <= j < k < i + 1 implies #[trigger] places[j]
                != #[trigger] places[k] by {
                if k < i {
                    assert(old_places[j] != old_places[k]);
                }
            }
            // Every place holds one of the rules so far.
            assert forall|q: int, x: int|
                0 <= q < after.len() && 0 <= x < after[q].rules@.len() implies #[trigger] is_place(
                places,
                i + 1,
                (q, x),
            ) by {
                if q == p && x == at {
                    assert(places[i as int] == (q, x));
                } else {
                    let was = if q == p && x > at {
                        (q, x - 1)
                    } else {
                        (q, x)
                    };
                    if q != p {
                        assert(after[q] == before[q]);
                    } else {
                        assert(partition_at(before, key, 0).is_some());
                        lemma_place_for(before[p].rules@, compiled.score, 0);
                    }
                    assert(is_place(old_places, i as int, was));
                    let j = choose|j: int|
                        0 <= j < i && j < old_places.len() && #[trigger] old_places[j] == was;
                    assert(places[j] == (q, x));
                }
            }
        }
    }
    partitions
}

/// The use at place `i` is the first use of its variable.
pub open spec fn is_first_use(usages: Seq<(Seq<u8>, UsageView)>, i: int) -> bool {
    forall|j: int| 0 <= j < i ==> (#[trigger] usages[j]).0 != usages[i].0
}

/// The uses of a variable among the first `n` uses, in their order.
pub open spec fn uses_of(usages: Seq<(Seq<u8>, UsageView)>, variable: Seq<u8>, n: int) -> Seq<
    UsageView,
>
    decreases n,
{
    if n <= 0 || n > usages.len() {
        Seq::<UsageView>::empty()
    } else if usages[n - 1].0 == variable {
        uses_of(usages, variable, n - 1).push(usages[n - 1].1)
    } else {
        uses_of(usages, variable, n - 1)
    }
}

/// All uses take the variable for the same kind of value.
pub open spec fn coherent(uses: Seq<UsageView>) -> bool {
    forall|a: int| 0 <= a < uses.len() ==> (#[trigger] uses[a]).infered_type == uses[0].infered_type
}

/// The errors that checking the first `n` uses gives: one for each variable
/// whose uses are not coherent, where the variable is first used, with all
/// its uses.
pub open spec fn type_errors(usages: Seq<(Seq<u8>, UsageView)>, n: int) -> Seq<CompileErrorView>
    decreases n,
{
    if n <= 0 || n > usages.len() {
        Seq::<CompileErrorView>::empty()
    } else {
        let all_uses = uses_of(usages, usages[n - 1].0, usages.len() as int);
        if is_first_use(usages, n - 1) && !coherent(all_uses) {
            type_errors(usages, n - 1).push(
                CompileErrorView::IndeterminateVariableType {
                    variable_name: usages[n - 1].0,
                    usages: all_uses,
                },
            )
        } else {
            type_errors(usages, n - 1)
        }
    }
}

/// Checks that each variable is used as one kind of value throughout.
pub fn check_types(usages: &Vec<(Name, VariableUsage)>, errors: &mut Vec<CompileError>)
    ensures
        error_views(final(errors)@) == error_views(old(errors)@) + type_errors(
            recorded(usages@),
            usages@.len() as int,
        ),
{
    let ghost all = recorded(usages@);
    let ghost errors_before = error_views(errors@);
    let n = usages.len();
    let mut i: usize = 0;
    assert(error_views(errors@) =~= errors_before + type_errors(all, 0));
    while i < n
        invariant
            i <= n,
            n == usages@.len(),
            all == recorded(usages@),
            error_views(errors@) == errors_before + type_errors(all, i as int),
        decreases n - i,
    {
        let variable = &usages[i].0;
        assert(all[i as int].0 == variable@);
        let mut first = true;
        let mut j: usize = 0;
        while j < i
            invariant
                j <= i,
                i < n,
                n == usages@.len(),
                all == recorded(usages@),
                variable@ == all[i as int].0,
                first == (forall|k: int| 0 <= k < j ==> (#[trigger] all[k]).0 != all[i as int].0),
            decreases i - j,
        {
            if usages[j].0.same(variable) {
                assert(all[j as int].0 == all[i as int].0);
                first = false;
            }
            j += 1;
        }
        assert(first == is_first_use(all, i as int));
        let ghost errors_now = error_views(errors@);
        if first {
            let mut uses: Vec<VariableUsage> = Vec::new();
            let mut same = true;
            let mut k: usize = 0;
            assert(usage_views(uses@) =~= uses_of(all, variable@, 0));
            while k < n
                invariant
                    k <= n,
                    n == usages@.len(),
                    all == recorded(usages@),
                    usage_views(uses@) == uses_of(all, variable@, k as int),
                    same == coherent(uses_of(all, variable@, k as int)),
                decreases n - k,
            {
                if usages[k].0.same(variable) {
                    let ghost before = usage_views(uses@);
                    assert(all[k as int].0 == variable@);
                    let usage = usages[k].1.duplicate();
                    if uses.len() > 0 && usage.infered_type != uses[0].infered_type {
                        same = false;
                    }
                    uses.push(usage);
                    proof {
                        let after = usage_views(uses@);
                        assert(after =~= before.push(all[k as int].1));
                        assert(after == uses_of(all, variable@, k + 1));
                        if coherent(before) && (before.len() == 0 || all[k as int].1.infered_type
                            == before[0].infered_type) {
                            assert forall|a: int| 0 <= a < after.len() implies (
                            #[trigger] after[a]).infered_type == after[0].infered_type by {
                                if a < before.len() {
                                    assert(after[a] == before[a]);
                                    assert(after[0] == before[0]);
                                }
                            }
                        }
                        if coherent(after) {
                            assert forall|a: int| 0 <= a < before.len() implies (
                            #[trigger] before[a]).infered_type == before[0].infered_type by {
                                assert(after[a] == before[a]);
                                assert(after[0] == before[0]);
                            }
                            if before.len() > 0 {
                                assert(after[before.len() as int].infered_type
                                    == after[0].infered_type);
                                assert(after[0] == before[0]);
                            }
                        }
                    }
                } else {
                    assert(all[k as int].0 != variable@);
                }
                k += 1;
            }
            if !same {
                let error = CompileError::IndeterminateVariableType {
                    variable_name: variable.duplicate(),
                    usages: uses,
                };
                let ghost e = error@;
                errors.push(error);
                assert(error_views(errors@) =~= errors_now.push(e));
            }
        }
        i += 1;
        assert(error_views(errors@) =~= errors_before + type_errors(all, i as int));
    }
}

/// Gathers definitions and compiles them into an engine.
#[derive(Debug)]
pub struct ResponseEngineCompiler {
    /// The variables by which rules may be partitioned.
    pub partition_variables: Table<()>,
    pub criteria: Table<Criterion>,
    pub rules: Table<Rule>,
    pub response_groups: Table<ResponseGroup>,
}

/// What a compilation has to report.
#[derive(Debug)]
pub struct CompilerReport {
    pub errors: Vec<CompileError>,
}

/// The uses of variables in the definitions of a compiler: those of the
/// criteria, then those of the instructions of the rules.
pub open spec fn usages_of(compiler: ResponseEngineCompiler) -> Seq<(Seq<u8>, UsageView)> {
    criteria_usages(compiler.criteria@, compiler.criteria@.len() as int) + all_rule_usages(
        compiler.rules@,
        compiler.rules@.len() as int,
    )
}

/// The errors of a compilation, in the order in which they are reported:
/// those of the response groups, those of the rules, and the variables that
/// are used as values of different kinds. `all` are the compiled criteria.
pub open spec fn errors_of(compiler: ResponseEngineCompiler, all: Seq<EngineCriterion>) -> Seq<
    CompileErrorView,
> {
    all_group_errors(compiler.response_groups@, compiler.response_groups@.len() as int)
        + all_rule_errors(
        compiler.rules@,
        compiler.rules@.len() as int,
        all,
        criteria_index(
            compiler.criteria@,
            all,
            compiler.partition_variables@,
            compiler.criteria@.len() as int,
        ),
        groups_index(compiler.response_groups@, compiler.response_groups@.len() as int),
    ) + type_errors(usages_of(compiler), usages_of(compiler).len() as int)
}

/// The criteria are those of the compiler, compiled, and the errors are the
/// errors of the compilation.
pub open spec fn reports(
    compiler: ResponseEngineCompiler,
    all: Seq<EngineCriterion>,
    errors: Seq<CompileErrorView>,
) -> bool {
    &&& criteria_compiled(
        Seq::<Seq<u8>>::empty(),
        compiler.criteria@,
        all,
        compiler.criteria@.len() as int,
    )
    &&& errors == errors_of(compiler, all)
}

/// The engine is what the definitions of the compiler compile to: its
/// criteria and response groups are theirs, compiled, in ascending order of
/// their names; its encoder knows the strings of the criteria; its
/// partition variables are the compiler's; and its partitions hold the
/// compiled rules, the `j`-th in ascending order of name at `places[j]`.
pub open spec fn is_engine_of(
    engine: ResponseEngine,
    compiler: ResponseEngineCompiler,
    places: Seq<(int, int)>,
) -> bool {
    &&& engine.wf()
    &&& criteria_compiled(
        Seq::<Seq<u8>>::empty(),
        compiler.criteria@,
        engine.criteria@,
        compiler.criteria@.len() as int,
    )
    &&& engine.encoder@ == strings_after(
        Seq::<Seq<u8>>::empty(),
        compiler.criteria@,
        compiler.criteria@.len() as int,
    )
    &&& engine.response_groups@.len() == compiler.response_groups@.len()
    &&& forall|i: int|
        0 <= i < compiler.response_groups@.len() ==> group_compiled(
            #[trigger] engine.response_groups@[i],
            compiler.response_groups@[i].1,
        )
    &&& engine.rules.vars@.len() == compiler.partition_variables@.len()
    &&& forall|i: int|
        0 <= i < engine.rules.vars@.len() ==> (#[trigger] engine.rules.vars@[i])@
            == compiler.partition_variables@[i].0
    &&& rules_placed(
        engine.rules.partitions@,
        places,
        compiler.rules@,
        compiler.rules@.len() as int,
        engine.criteria@,
        criteria_index(
            compiler.criteria@,
            engine.criteria@,
            compiler.partition_variables@,
            compiler.criteria@.len() as int,
        ),
        groups_index(compiler.response_groups@, compiler.response_groups@.len() as int),
    )
}

impl ResponseEngineCompiler {
    /// The tables of the compiler are well formed, and so are the responses
    /// of its groups.
    pub open spec fn wf(&self) -> bool {
        &&& self.partition_variables.wf()
        &&& self.criteria.wf()
        &&& self.rules.wf()
        &&& self.response_groups.wf()
        &&& groups_wf(self.response_groups@)
    }

    /// A compiler without definitions.
    pub fn new() -> (r: ResponseEngineCompiler)
        ensures
            r.wf(),
            r.partition_variables@.len() == 0,
            r.criteria@.len() == 0,
            r.rules@.len() == 0,
            r.response_groups@.len() == 0,
    {
        ResponseEngineCompiler {
            partition_variables: Table::new(),
            criteria: Table::new(),
            rules: Table::new(),
            response_groups: Table::new(),
        }
    }

    /// Declares a variable by which rules may be partitioned.
    pub fn with_partition_variable(&mut self, variable: Name)
        requires
            old(self).wf(),
        ensures
            final(self).wf(),
            final(self).partition_variables@ == updated(
                old(self).partition_variables@,
                variable@,
                (),
            ),
            final(self).criteria == old(self).criteria,
            final(self).rules == old(self).rules,
            final(self).response_groups == old(self).response_groups,
    {
        self.partition_variables.insert(variable, ());
    }

    /// Defines a criterion, in place of an earlier one of the same name.
    pub fn with_criterion(&mut self, name: Name, criterion: Criterion)
        requires
            old(self).wf(),
        ensures
            final(self).wf(),
            final(self).criteria@ == updated(old(self).criteria@, name@, criterion),
            final(self).partition_variables == old(self).partition_variables,
            final(self).rules == old(self).rules,
            final(self).response_groups == old(self).response_groups,
    {
        self.criteria.insert(name, criterion);
    }

    /// Defines a rule, in place of an earlier one of the same name.
    pub fn with_rule(&mut self, name: Name, rule: Rule)
        requires
            old(self).wf(),
        ensures
            final(self).wf(),
            final(self).rules@ == updated(old(self).rules@, name@, rule),
            final(self).partition_variables == old(self).partition_variables,
            final(self).criteria == old(self).criteria,
            final(self).response_groups == old(self).response_groups,
    {
        self.rules.insert(name, rule);
    }

    /// Defines a response group, in place of an earlier one of the same
    /// name.
    pub fn with_response_group(&mut self, name: Name, response_group: ResponseGroup)
        requires
            old(self).wf(),
            response_group.wf(),
        ensures
            final(self).wf(),
            final(self).response_groups@ == updated(
                old(self).response_groups@,
                name@,
                response_group,
            ),
            final(self).partition_variables == old(self).partition_variables,
            final(self).criteria == old(self).criteria,
            final(self).rules == old(self).rules,
    {
        let ghost before = self.response_groups@;
        self.response_groups.insert(name, response_group);
        proof {
            lemma_updated_values(before, name@, response_group);
        }
    }

    /// Compiles the definitions. The engine is given if and only if there
    /// is no error to report.
    pub fn finish(self) -> (r: (Option<ResponseEngine>, CompilerReport))
        requires
            self.wf(),
        ensures
            r.0.is_some() <==> r.1.errors@.len() == 0,
            exists|all: Seq<EngineCriterion>|
                #[trigger] reports(self, all, error_views(r.1.errors@)),
            r.0.is_some() ==> r.0.unwrap().wf(),
            r.0.is_some() ==> exists|places: Seq<(int, int)>|
                #[trigger] is_engine_of(r.0.unwrap(), self, places),
    {
        let ghost me = self;
        let mut ctx = Context::new();
        assert(ctx.encoder@ =~= Seq::<Seq<u8>>::empty());
        assert(recorded(ctx.variable_usages@) =~= Seq::<(Seq<u8>, UsageView)>::empty());
        assert(error_views(ctx.errors@) =~= Seq::<CompileErrorView>::empty());
        let vars = self.partition_variables.keys();
        let compiled = compile_criteria(self.criteria, &self.partition_variables, &mut ctx);
        let criteria = compiled.0;
        let criteria_index = compiled.1;
        let built = compile_groups(self.response_groups, &mut ctx);
        let response_groups = built.0;
        let response_group_index = built.1;
        let partitions = compile_rules(
            self.rules,
            &mut ctx,
            &criteria,
            &criteria_index,
            &response_group_index,
            response_groups.len(),
        );
        let ghost places = choose|places: Seq<(int, int)>|
            #[trigger] rules_placed(
                partitions@,
                places,
                me.rules@,
                me.rules@.len() as int,
                criteria@,
                criteria_index@,
                response_group_index@,
            );
        let Context { errors, encoder, variable_usages } = ctx;
        let mut errors = errors;
        check_types(&variable_usages, &mut errors);
        proof {
            assert(recorded(variable_usages@) =~= usages_of(me));
            assert(error_views(errors@) =~= errors_of(me, criteria@));
            assert(reports(me, criteria@, error_views(errors@)));
        }
        if errors.len() == 0 {
            let engine = ResponseEngine {
                criteria,
                rules: RulePartitions { vars, partitions },
                response_groups,
                encoder,
            };
            proof {
                assert forall|i: int, j: int| 0 <= i < j < engine.rules.vars@.len() implies precedes(
                    engine.rules.vars@[i]@,
                    engine.rules.vars@[j]@,
                ) by {
                    assert(precedes(
                        me.partition_variables@[i].0,
                        me.partition_variables@[j].0,
                    ));
                }
                assert forall|g: int| 0 <= g < engine.response_groups@.len() implies group_wf(
                    #[trigger] engine.response_groups@[g],
                ) by {
                    assert(group_compiled(engine.response_groups@[g], me.response_groups@[g].1));
                }
                assert(engine.rules_wf()) by {
                    assert forall|p: int| 0 <= p < engine.rules.partitions@.len() implies partition_wf(
                        engine.criteria@,
                        engine.response_groups@.len() as int,
                        #[trigger] engine.rules.partitions@[p],
                    ) by {}
                }
                assert(is_engine_of(engine, me, places));
            }
            (Some(engine), CompilerReport { errors })
        } else {
            (None, CompilerReport { errors })
        }
    }
}

/// Giving a name a value leaves the other values of the list as they were:
/// every value of the new list is the new value or a value of the old list.
pub proof fn lemma_updated_values(
    s: Seq<(Seq<u8>, ResponseGroup)>,
    name: Seq<u8>,
    value: ResponseGroup,
)
    requires
        groups_wf(s),
        value.wf(),
    ensures
        groups_wf(updated(s, name, value)),
{
    let t = updated(s, name, value);
    let k = crate::props::first_not_before(s, 0, name);
    crate::props::lemma_first_not_before(s, 0, name);
    assert forall|i: int| 0 <= i < t.len() implies (#[trigger] t[i]).1.wf() by {
        if k < s.len() && s[k].0 == name {
            if i != k {
                assert(t[i] == s[i]);
            }
        } else {
            if i < k {
                assert(t[i] == s[i]);
            } else if i > k {
                assert(t[i] == s[i - 1]);
            }
        }
    }
}

/// Two lists of compiled criteria are alike: as long, and place by place on
/// the same variable with the same bounds.
pub open spec fn alike(one: Seq<EngineCriterion>, two: Seq<EngineCriterion>) -> bool {
    &&& one.len() == two.len()
    &&& forall|i: int|
        0 <= i < one.len() ==> (#[trigger] one[i]).variable@ == two[i].variable@ && one[i].min
            == two[i].min && one[i].max == two[i].max
}

/// Resolving the criteria of a rule against lists of compiled criteria that
/// are alike gives the same.
pub proof fn lemma_resolved_alike(
    names: Seq<Name>,
    n: int,
    rule_name: Seq<u8>,
    one: Seq<EngineCriterion>,
    two: Seq<EngineCriterion>,
    index: Seq<(Seq<u8>, (usize, u32, bool))>,
)
    requires
        alike(one, two),
        index_in_range(index, one.len() as int),
    ensures
        resolved(names, n, rule_name, one, index) == resolved(names, n, rule_name, two, index),
    decreases n,
{
    if 0 < n <= names.len() {
        lemma_resolved_alike(names, n - 1, rule_name, one, two, index);
        match lookup(index, names[n - 1]@) {
            None => {},
            Some(entry) => {
                crate::compiler::lemma_lookup_is_entry(index, names[n - 1]@);
                let k = choose|k: int| 0 <= k < index.len() && (#[trigger] index[k]).1 == entry;
                assert((index[k].1.0 as int) < one.len());
                assert(one[entry.0 as int].variable@ == two[entry.0 as int].variable@);
            },
        }
    }
}

/// The rules give the same errors against lists of compiled criteria that
/// are alike.
pub proof fn lemma_rule_errors_alike(
    rules: Seq<(Seq<u8>, Rule)>,
    n: int,
    one: Seq<EngineCriterion>,
    two: Seq<EngineCriterion>,
    cindex: Seq<(Seq<u8>, (usize, u32, bool))>,
    gindex: Seq<(Seq<u8>, usize)>,
)
    requires
        alike(one, two),
        index_in_range(cindex, one.len() as int),
    ensures
        all_rule_errors(rules, n, one, cindex, gindex) == all_rule_errors(
            rules,
            n,
            two,
            cindex,
            gindex,
        ),
    decreases n,
{
    if 0 < n <= rules.len() {
        lemma_rule_errors_alike(rules, n - 1, one, two, cindex, gindex);
        lemma_resolved_alike(
            rules[n - 1].1.criteria@,
            rules[n - 1].1.criteria@.len() as int,
            rules[n - 1].0,
            one,
            two,
            cindex,
        );
    }
}

/// Compiling is deterministic in what it reports: two compilations of the
/// same definitions report the same errors in the same order.
pub proof fn lemma_reports_deterministic(
    compiler: ResponseEngineCompiler,
    one: Seq<EngineCriterion>,
    two: Seq<EngineCriterion>,
    errors_one: Seq<CompileErrorView>,
    errors_two: Seq<CompileErrorView>,
)
    requires
        reports(compiler, one, errors_one),
        reports(compiler, two, errors_two),
    ensures
        alike(one, two),
        errors_one == errors_two,
{
    let n = compiler.criteria@.len() as int;
    let index_one = criteria_index(compiler.criteria@, one, compiler.partition_variables@, n);
    let index_two = criteria_index(compiler.criteria@, two, compiler.partition_variables@, n);
    assert(alike(one, two));
    assert(index_one =~= index_two);
    assert(index_in_range(index_one, one.len() as int));
    lemma_rule_errors_alike(
        compiler.rules@,
        compiler.rules@.len() as int,
        one,
        two,
        index_one,
        groups_index(compiler.response_groups@, compiler.response_groups@.len() as int),
    );
}

} // verus!
