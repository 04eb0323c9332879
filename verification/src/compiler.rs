//! The compiler: from definitions to an engine.
use crate::dispatch::all_places;
use crate::dispatch::places;
use crate::dispatch::DispatcherView;
use crate::dispatch::ResponseDispatcher;
use crate::encoder::after_seeing;
use crate::encoder::code_in;
use crate::encoder::Encoder;
use crate::engine::group_wf;
use crate::engine::EngineCriterion;
use crate::engine::rule_wf;
use crate::engine::tested_variable;
use crate::engine::EngineResponseGroup;
use crate::engine::EngineRule;
use crate::hashing::assignments_of;
use crate::literal::parse_weight;
use crate::literal::weight_of;
use crate::model::Criterion;
use crate::model::Delivery;
use crate::model::Instruction;
use crate::model::Operation;
use crate::model::Predicate;
use crate::model::Response;
use crate::model::ResponseGroup;
use crate::model::Rule;
use crate::model::Type;
use crate::name::precedes;
use crate::name::Name;
use crate::num;
use crate::props::ascending;
use crate::props::first_not_before;
use crate::props::holds;
use crate::props::lookup;
use crate::props::updated;
use crate::soft;
use crate::table::Table;
use crate::props::without;
use vstd::prelude::*;

verus! {

/// Where a variable is used: in a criterion or in a rule.
#[derive(Debug)]
pub enum VariableLocation {
    Criterion(Name),
    Rule(Name),
}

/// Where a variable is used, with the name as a sequence of bytes.
pub enum LocationView {
    Criterion(Seq<u8>),
    Rule(Seq<u8>),
}

impl View for VariableLocation {
    type V = LocationView;

    open spec fn view(&self) -> LocationView {
        match self {
            VariableLocation::Criterion(n) => LocationView::Criterion(n@),
            VariableLocation::Rule(n) => LocationView::Rule(n@),
        }
    }
}

/// One use of a variable: as what kind of value, and where.
#[derive(Debug)]
pub struct VariableUsage {
    pub infered_type: Type,
    pub location: VariableLocation,
}

/// One use of a variable, with the name as a sequence of bytes.
pub struct UsageView {
    pub infered_type: Type,
    pub location: LocationView,
}

impl View for VariableUsage {
    type V = UsageView;

    open spec fn view(&self) -> UsageView {
        UsageView { infered_type: self.infered_type, location: self.location@ }
    }
}

impl VariableUsage {
    /// A copy of the usage.
    pub fn duplicate(&self) -> (r: VariableUsage)
        ensures
            r@ == self@,
    {
        VariableUsage {
            infered_type: self.infered_type,
            location: match &self.location {
                VariableLocation::Criterion(n) => VariableLocation::Criterion(n.duplicate()),
                VariableLocation::Rule(n) => VariableLocation::Rule(n.duplicate()),
            },
        }
    }
}

/// What can be wrong with a set of definitions.
#[derive(Debug)]
pub enum CompileError {
    /// A variable is used as values of different kinds.
    IndeterminateVariableType { variable_name: Name, usages: Vec<VariableUsage> },
    /// The weight of a response is no number.
    InvalidWeightString { string: Vec<u8>, in_response_group: Name },
    /// A rule names a criterion that is not defined.
    MissingCriterion { criterion_name: Name, in_rule: Name },
    /// A rule names a response group that is not defined.
    MissingResponseGroup { group_name: Name, in_rule: Name },
    /// A rule names two criteria on the same variable.
    RepeatedVariable { criterion_name: Name, in_rule: Name },
}

/// What can be wrong with a set of definitions, with names and texts as
/// sequences of bytes.
pub enum CompileErrorView {
    IndeterminateVariableType { variable_name: Seq<u8>, usages: Seq<UsageView> },
    InvalidWeightString { string: Seq<u8>, in_response_group: Seq<u8> },
    MissingCriterion { criterion_name: Seq<u8>, in_rule: Seq<u8> },
    MissingResponseGroup { group_name: Seq<u8>, in_rule: Seq<u8> },
    RepeatedVariable { criterion_name: Seq<u8>, in_rule: Seq<u8> },
}

/// The views of a list of usages.
pub open spec fn usage_views(usages: Seq<VariableUsage>) -> Seq<UsageView> {
    Seq::new(usages.len(), |i: int| usages[i]@)
}

impl View for CompileError {
    type V = CompileErrorView;

    open spec fn view(&self) -> CompileErrorView {
        match self {
            CompileError::IndeterminateVariableType { variable_name, usages } => {
                CompileErrorView::IndeterminateVariableType {
                    variable_name: variable_name@,
                    usages: usage_views(usages@),
                }
            },
            CompileError::InvalidWeightString { string, in_response_group } => {
                CompileErrorView::InvalidWeightString {
                    string: string@,
                    in_response_group: in_response_group@,
                }
            },
            CompileError::MissingCriterion { criterion_name, in_rule } => {
                CompileErrorView::MissingCriterion {
                    criterion_name: criterion_name@,
                    in_rule: in_rule@,
                }
            },
            CompileError::MissingResponseGroup { group_name, in_rule } => {
                CompileErrorView::MissingResponseGroup { group_name: group_name@, in_rule: in_rule@ }
            },
            CompileError::RepeatedVariable { criterion_name, in_rule } => {
                CompileErrorView::RepeatedVariable {
                    criterion_name: criterion_name@,
                    in_rule: in_rule@,
                }
            },
        }
    }
}

/// The views of a list of errors.
pub open spec fn error_views(errors: Seq<CompileError>) -> Seq<CompileErrorView> {
    Seq::new(errors.len(), |i: int| errors[i]@)
}

/// The uses of variables recorded so far, each with its variable.
pub open spec fn recorded(usages: Seq<(Name, VariableUsage)>) -> Seq<(Seq<u8>, UsageView)> {
    Seq::new(usages.len(), |i: int| (usages[i].0@, usages[i].1@))
}

/// What a compilation gathers on its way.
#[derive(Debug)]
pub struct Context {
    pub errors: Vec<CompileError>,
    pub encoder: Encoder,
    pub variable_usages: Vec<(Name, VariableUsage)>,
}

impl Context {
    /// A context with nothing gathered.
    pub fn new() -> (r: Context)
        ensures
            r.errors@.len() == 0,
            r.variable_usages@.len() == 0,
            r.encoder.wf(),
            r.encoder@.len() == 0,
    {
        Context { errors: Vec::new(), encoder: Encoder::new(), variable_usages: Vec::new() }
    }
}

/// The strings that the encoder knows after a predicate was compiled: the
/// string that a predicate compares with is shown to it.
pub open spec fn names_after(names: Seq<Seq<u8>>, predicate: Predicate) -> Seq<Seq<u8>> {
    match predicate {
        Predicate::StrEqual(s) => after_seeing(names, s@),
        _ => names,
    }
}

/// The least and the greatest number that satisfy a predicate. A boolean
/// stands as `0.0` or `1.0`, a string as its code, and a bound that is
/// absent is an infinity.
pub open spec fn bounds(predicate: Predicate, names: Seq<Seq<u8>>) -> (u32, u32) {
    match predicate {
        Predicate::BoolEqual(b) => (num::of_bool(b), num::of_bool(b)),
        Predicate::NumEqual(n) => (n, n),
        Predicate::NumRange(low, high) => (
            match low {
                Some(l) => l,
                None => num::NEG_INFINITY,
            },
            match high {
                Some(h) => h,
                None => num::INFINITY,
            },
        ),
        Predicate::StrEqual(s) => (code_in(names, s@).unwrap(), code_in(names, s@).unwrap()),
    }
}

impl Criterion {
    /// Compiles the criterion: records as what kind of value it uses its
    /// variable, and reduces its predicate to a least and a greatest number.
    pub fn build(self, name: Name, ctx: &mut Context) -> (r: EngineCriterion)
        requires
            old(ctx).encoder.wf(),
        ensures
            r.variable@ == self.variable@,
            (r.min, r.max) == bounds(self.predicate, final(ctx).encoder@),
            final(ctx).encoder.wf(),
            final(ctx).encoder@ == names_after(old(ctx).encoder@, self.predicate),
            final(ctx).errors == old(ctx).errors,
            recorded(final(ctx).variable_usages@) == recorded(old(ctx).variable_usages@).push(
                (
                    self.variable@,
                    UsageView {
                        infered_type: self.predicate.used_as(),
                        location: LocationView::Criterion(name@),
                    },
                ),
            ),
    {
        let usage = VariableUsage {
            infered_type: self.predicate.kind(),
            location: VariableLocation::Criterion(name),
        };
        let ghost before = recorded(ctx.variable_usages@);
        let ghost added = (self.variable@, usage@);
        ctx.variable_usages.push((self.variable.duplicate(), usage));
        assert(recorded(ctx.variable_usages@) =~= before.push(added));
        let (min, max) = match &self.predicate {
            Predicate::BoolEqual(b) => {
                let n = num::from_bool(*b);
                (n, n)
            },
            Predicate::NumEqual(n) => (*n, *n),
            Predicate::NumRange(low, high) => (
                match low {
                    Some(l) => *l,
                    None => num::NEG_INFINITY,
                },
                match high {
                    Some(h) => *h,
                    None => num::INFINITY,
                },
            ),
            Predicate::StrEqual(s) => {
                let code = ctx.encoder.encode_ustr(s);
                (code, code)
            },
        };
        EngineCriterion { variable: self.variable, min, max }
    }
}

/// The name under which a response gives its weight.
pub open spec fn weight_key() -> Seq<u8> {
    seq![119u8, 101u8, 105u8, 103u8, 104u8, 116u8]
}

/// The weight of a response: what the text under `weight` denotes, and one
/// where there is no such text or it denotes no number.
pub open spec fn response_weight(response: Seq<(Seq<u8>, Vec<u8>)>) -> u32 {
    match lookup(response, weight_key()) {
        Some(text) => match weight_of(text@) {
            Some(w) => w,
            None => num::ONE,
        },
        None => num::ONE,
    }
}

/// Whether a response has a text under `weight` that denotes no number.
pub open spec fn weight_is_invalid(response: Seq<(Seq<u8>, Vec<u8>)>) -> bool {
    match lookup(response, weight_key()) {
        Some(text) => weight_of(text@).is_none(),
        None => false,
    }
}

/// The weights of the first `n` responses.
pub open spec fn group_weights(responses: Seq<Response>, n: int) -> Seq<u32>
    decreases n,
{
    if n <= 0 || n > responses.len() {
        Seq::<u32>::empty()
    } else {
        group_weights(responses, n - 1).push(response_weight(responses[n - 1]@))
    }
}

/// The errors that the first `n` responses of a group give: one for each
/// weight that is no number, in the order of the responses.
pub open spec fn group_errors(responses: Seq<Response>, group: Seq<u8>, n: int) -> Seq<
    CompileErrorView,
>
    decreases n,
{
    if n <= 0 || n > responses.len() {
        Seq::<CompileErrorView>::empty()
    } else if weight_is_invalid(responses[n - 1]@) {
        group_errors(responses, group, n - 1).push(
            CompileErrorView::InvalidWeightString {
                string: lookup(responses[n - 1]@, weight_key()).unwrap()@,
                in_response_group: group,
            },
        )
    } else {
        group_errors(responses, group, n - 1)
    }
}

/// The dispatcher of a group before it has given any response.
pub open spec fn fresh_dispatcher(delivery: Delivery, weights: Seq<u32>) -> DispatcherView {
    match delivery {
        Delivery::Shuffle => DispatcherView::Shuffle {
            weights,
            candidates: all_places(weights.len() as int),
        },
        Delivery::Random => DispatcherView::Random { weights },
        Delivery::Deplete => DispatcherView::Deplete {
            weights,
            candidates: all_places(weights.len() as int),
        },
        Delivery::Loop => DispatcherView::Loop { len: weights.len() as usize, index: 0 },
        Delivery::List => DispatcherView::List { len: weights.len() as usize, index: 0 },
    }
}

impl ResponseGroup {
    /// Every response of the group is a well-formed table.
    pub open spec fn wf(&self) -> bool {
        forall|i: int| 0 <= i < self.responses@.len() ==> (#[trigger] self.responses@[i]).wf()
    }

    /// Compiles the group: takes the weight out of each response, reports
    /// each weight that is no number, and sets up the dispatcher.
    pub fn build(self, name: &Name, ctx: &mut Context) -> (r: EngineResponseGroup)
        requires
            self.wf(),
        ensures
            final(ctx).encoder == old(ctx).encoder,
            final(ctx).variable_usages == old(ctx).variable_usages,
            error_views(final(ctx).errors@) == error_views(old(ctx).errors@) + group_errors(
                self.responses@,
                name@,
                self.responses@.len() as int,
            ),
            r.dispatcher@ == fresh_dispatcher(
                self.delivery,
                group_weights(self.responses@, self.responses@.len() as int),
            ),
            r.responses@.len() == self.responses@.len(),
            forall|i: int|
                0 <= i < self.responses@.len() ==> (#[trigger] r.responses@[i]).wf()
                    && r.responses@[i]@ == without(self.responses@[i]@, weight_key()),
            group_wf(r),
    {
        let ghost given = self.responses@;
        let ghost errors_before = error_views(ctx.errors@);
        let delivery = self.delivery;
        let mut responses = self.responses;
        let mut weights: Vec<u32> = Vec::new();
        let key_bytes: [u8; 6] = [119, 101, 105, 103, 104, 116];
        let key = Name::from_slice(key_bytes.as_slice());
        assert(key@ =~= weight_key());
        let mut i: usize = 0;
        assert(error_views(ctx.errors@) =~= errors_before + group_errors(given, name@, 0));
        while i < responses.len()
            invariant
                i <= responses@.len(),
                responses@.len() == given.len(),
                key@ == weight_key(),
                ctx.encoder == old(ctx).encoder,
                ctx.variable_usages == old(ctx).variable_usages,
                forall|j: int| 0 <= j < given.len() ==> (#[trigger] given[j]).wf(),
                forall|j: int| i <= j < given.len() ==> #[trigger] responses@[j] == given[j],
                forall|j: int|
                    0 <= j < i ==> (#[trigger] responses@[j]).wf() && responses@[j]@ == without(
                        given[j]@,
                        weight_key(),
                    ),
                weights@ == group_weights(given, i as int),
                error_views(ctx.errors@) == errors_before + group_errors(given, name@, i as int),
            decreases responses@.len() - i,
        {
            let ghost errors_now = error_views(ctx.errors@);
            assert(responses@[i as int] == given[i as int]);
            let taken = responses[i].remove(&key);
            let weight = match taken {
                Some(text) => match parse_weight(text.as_slice()) {
                    Some(w) => w,
                    None => {
                        let error = CompileError::InvalidWeightString {
                            string: text,
                            in_response_group: name.duplicate(),
                        };
                        let ghost e = error@;
                        ctx.errors.push(error);
                        assert(error_views(ctx.errors@) =~= errors_now.push(e));
                        num::ONE
                    },
                },
                None => num::ONE,
            };
            weights.push(weight);
            i += 1;
        }
        let n = responses.len();
        assert(weights@.len() == n) by {
            lemma_group_weights_len(given, n as int);
        }
        let dispatcher = match delivery {
            Delivery::Shuffle => ResponseDispatcher::Shuffle { weights, candidates: places(n) },
            Delivery::Random => ResponseDispatcher::Random { weights },
            Delivery::Deplete => ResponseDispatcher::Deplete { weights, candidates: places(n) },
            Delivery::Loop => ResponseDispatcher::Loop { len: n, index: 0 },
            Delivery::List => ResponseDispatcher::List { len: n, index: 0 },
        };
        EngineResponseGroup { dispatcher, responses }
    }
}

/// There is one weight for each response.
pub proof fn lemma_group_weights_len(responses: Seq<Response>, n: int)
    requires
        0 <= n <= responses.len(),
    ensures
        group_weights(responses, n).len() == n,
    decreases n,
{
    if n > 0 {
        lemma_group_weights_len(responses, n - 1);
    }
}

/// What resolving the criteria of a rule has given so far.
pub struct Resolved {
    /// The sum of the weights of the criteria that count.
    pub score: u32,
    /// The criteria to test when the rule is scanned, each under its
    /// variable, by their places in the list of all criteria.
    pub tested: Seq<(Seq<u8>, usize)>,
    /// The values that partition variables must have, each under its
    /// variable.
    pub assigned: Seq<(Seq<u8>, u32)>,
    /// The variables that were found a second time.
    pub repeated: Seq<(Seq<u8>, ())>,
    /// The errors found.
    pub errors: Seq<CompileErrorView>,
}

/// Before any criterion was resolved.
pub open spec fn unresolved() -> Resolved {
    Resolved {
        score: num::ZERO,
        tested: Seq::<(Seq<u8>, usize)>::empty(),
        assigned: Seq::<(Seq<u8>, u32)>::empty(),
        repeated: Seq::<(Seq<u8>, ())>::empty(),
        errors: Seq::<CompileErrorView>::empty(),
    }
}

/// Resolving one more criterion of a rule. A name that is not defined is
/// an error. The first criterion on a variable counts: its weight is added
/// to the score, and it is tested at run time or, if it can partition,
/// assigns its value to the variable. A later criterion on the same
/// variable does not count and is an error the first time.
pub open spec fn resolve_one(
    so_far: Resolved,
    criterion_name: Seq<u8>,
    rule_name: Seq<u8>,
    all: Seq<EngineCriterion>,
    index: Seq<(Seq<u8>, (usize, u32, bool))>,
) -> Resolved {
    match lookup(index, criterion_name) {
        None => Resolved {
            errors: so_far.errors.push(
                CompileErrorView::MissingCriterion { criterion_name, in_rule: rule_name },
            ),
            ..so_far
        },
        Some((i, weight, partition)) => {
            let variable = all[i as int].variable@;
            if !holds(so_far.tested, variable) && !holds(so_far.assigned, variable) {
                if partition {
                    Resolved {
                        score: soft::sum_bits(so_far.score, weight),
                        assigned: updated(so_far.assigned, variable, all[i as int].min),
                        ..so_far
                    }
                } else {
                    Resolved {
                        score: soft::sum_bits(so_far.score, weight),
                        tested: updated(so_far.tested, variable, i),
                        ..so_far
                    }
                }
            } else if !holds(so_far.repeated, variable) {
                Resolved {
                    repeated: updated(so_far.repeated, variable, ()),
                    errors: so_far.errors.push(
                        CompileErrorView::RepeatedVariable { criterion_name, in_rule: rule_name },
                    ),
                    ..so_far
                }
            } else {
                so_far
            }
        },
    }
}

/// What resolving the first `n` criteria of a rule gives.
pub open spec fn resolved(
    names: Seq<Name>,
    n: int,
    rule_name: Seq<u8>,
    all: Seq<EngineCriterion>,
    index: Seq<(Seq<u8>, (usize, u32, bool))>,
) -> Resolved
    decreases n,
{
    if n <= 0 || n > names.len() {
        unresolved()
    } else {
        resolve_one(resolved(names, n - 1, rule_name, all, index), names[n - 1]@, rule_name, all, index)
    }
}

/// The places of the first `n` response groups of a rule that are defined.
pub open spec fn resolved_groups(names: Seq<Name>, n: int, index: Seq<(Seq<u8>, usize)>) -> Seq<
    usize,
>
    decreases n,
{
    if n <= 0 || n > names.len() {
        Seq::<usize>::empty()
    } else {
        match lookup(index, names[n - 1]@) {
            Some(g) => resolved_groups(names, n - 1, index).push(g),
            None => resolved_groups(names, n - 1, index),
        }
    }
}

/// The errors for those of the first `n` response groups of a rule that
/// are not defined.
pub open spec fn missing_groups(
    names: Seq<Name>,
    n: int,
    rule_name: Seq<u8>,
    index: Seq<(Seq<u8>, usize)>,
) -> Seq<CompileErrorView>
    decreases n,
{
    if n <= 0 || n > names.len() {
        Seq::<CompileErrorView>::empty()
    } else {
        match lookup(index, names[n - 1]@) {
            Some(_) => missing_groups(names, n - 1, rule_name, index),
            None => missing_groups(names, n - 1, rule_name, index).push(
                CompileErrorView::MissingResponseGroup {
                    group_name: names[n - 1]@,
                    in_rule: rule_name,
                },
            ),
        }
    }
}

/// The uses of variables that the first `n` instructions of a rule make.
pub open spec fn instruction_usages(instructions: Seq<Instruction>, n: int, rule_name: Seq<u8>) -> Seq<
    (Seq<u8>, UsageView),
>
    decreases n,
{
    if n <= 0 || n > instructions.len() {
        Seq::<(Seq<u8>, UsageView)>::empty()
    } else {
        instruction_usages(instructions, n - 1, rule_name).push(
            (
                instructions[n - 1].variable@,
                UsageView {
                    infered_type: instructions[n - 1].operation.used_as(),
                    location: LocationView::Rule(rule_name),
                },
            ),
        )
    }
}

/// The instructions from place `from` on, each under its variable; of
/// several on one variable the last one stands.
pub open spec fn last_wins(instructions: Seq<Instruction>, from: int) -> Seq<
    (Seq<u8>, (bool, Operation)),
>
    decreases instructions.len() - from,
{
    if from < 0 || from >= instructions.len() {
        Seq::<(Seq<u8>, (bool, Operation))>::empty()
    } else {
        let later = last_wins(instructions, from + 1);
        if holds(later, instructions[from].variable@) {
            later
        } else {
            updated(
                later,
                instructions[from].variable@,
                (instructions[from].global, instructions[from].operation),
            )
        }
    }
}

/// The values of a list of entries, in the order of the list.
pub open spec fn values_of<V>(entries: Seq<(Seq<u8>, V)>) -> Seq<V> {
    Seq::new(entries.len(), |i: int| entries[i].1)
}

/// Every criterion that the index names exists.
pub open spec fn index_in_range(index: Seq<(Seq<u8>, (usize, u32, bool))>, criteria: int) -> bool {
    forall|k: int| 0 <= k < index.len() ==> ((#[trigger] index[k]).1.0 as int) < criteria
}

/// Every response group that the index names lies below the bound.
pub open spec fn groups_in_range(index: Seq<(Seq<u8>, usize)>, groups: int) -> bool {
    forall|k: int| 0 <= k < index.len() ==> ((#[trigger] index[k]).1 as int) < groups
}

/// The criteria that are tested are criteria on the variables under which
/// they stand.
pub open spec fn tested_match(tested: Seq<(Seq<u8>, usize)>, all: Seq<EngineCriterion>) -> bool {
    forall|k: int|
        0 <= k < tested.len() ==> ((#[trigger] tested[k]).1 as int) < all.len()
            && all[tested[k].1 as int].variable@ == tested[k].0
}

/// Some entry of the list has the value.
pub open spec fn is_value_in<V>(index: Seq<(Seq<u8>, V)>, value: V) -> bool {
    exists|k: int| 0 <= k < index.len() && (#[trigger] index[k]).1 == value
}

/// What an index gives for a name is the value of one of its entries.
pub proof fn lemma_lookup_is_entry<V>(index: Seq<(Seq<u8>, V)>, name: Seq<u8>)
    requires
        lookup(index, name).is_some(),
    ensures
        is_value_in(index, lookup(index, name).unwrap()),
{
    assert(holds(index, name));
}

/// Giving one more variable a tested criterion keeps the tested criteria
/// matched to their variables.
pub proof fn lemma_tested_match_updated(
    tested: Seq<(Seq<u8>, usize)>,
    all: Seq<EngineCriterion>,
    i: usize,
)
    requires
        ascending(tested),
        tested_match(tested, all),
        i < all.len(),
    ensures
        tested_match(updated(tested, all[i as int].variable@, i), all),
{
    let variable = all[i as int].variable@;
    let t = updated(tested, variable, i);
    let k0 = first_not_before(tested, 0, variable);
    crate::props::lemma_first_not_before(tested, 0, variable);
    assert forall|k: int| 0 <= k < t.len() implies ((#[trigger] t[k]).1 as int) < all.len()
        && all[t[k].1 as int].variable@ == t[k].0 by {
        if k0 < tested.len() && tested[k0].0 == variable {
            if k != k0 {
                assert(t[k] == tested[k]);
            }
        } else {
            if k < k0 {
                assert(t[k] == tested[k]);
            } else if k > k0 {
                assert(t[k] == tested[k - 1]);
            }
        }
    }
}

impl Rule {
    /// Compiles the rule: records how its instructions use their variables,
    /// resolves its criteria and response groups, and gives the compiled
    /// rule together with the values that it asks of partition variables,
    /// in ascending order of the variables.
    pub fn build(
        self,
        name: &Name,
        ctx: &mut Context,
        all_criteria: &Vec<EngineCriterion>,
        criteria_index: &Table<(usize, u32, bool)>,
        response_groups_index: &Table<usize>,
    ) -> (r: (EngineRule, Vec<(Name, u32)>))
        requires
            criteria_index.wf(),
            response_groups_index.wf(),
            index_in_range(criteria_index@, all_criteria@.len() as int),
        ensures
            final(ctx).encoder == old(ctx).encoder,
            recorded(final(ctx).variable_usages@) == recorded(old(ctx).variable_usages@)
                + instruction_usages(self.instructions@, self.instructions@.len() as int, name@),
            error_views(final(ctx).errors@) == error_views(old(ctx).errors@) + resolved(
                self.criteria@,
                self.criteria@.len() as int,
                name@,
                all_criteria@,
                criteria_index@,
            ).errors + missing_groups(
                self.response_groups@,
                self.response_groups@.len() as int,
                name@,
                response_groups_index@,
            ),
            r.0.criteria@ == values_of(
                resolved(
                    self.criteria@,
                    self.criteria@.len() as int,
                    name@,
                    all_criteria@,
                    criteria_index@,
                ).tested,
            ),
            r.0.score == resolved(
                self.criteria@,
                self.criteria@.len() as int,
                name@,
                all_criteria@,
                criteria_index@,
            ).score,
            assignments_of(r.1@) == resolved(
                self.criteria@,
                self.criteria@.len() as int,
                name@,
                all_criteria@,
                criteria_index@,
            ).assigned,
            ascending(assignments_of(r.1@)),
            r.0.response_groups@ == resolved_groups(
                self.response_groups@,
                self.response_groups@.len() as int,
                response_groups_index@,
            ),
            r.0.instructions@ == last_wins(self.instructions@, 0),
            r.0.enabled,
            forall|groups: int|
                groups_in_range(response_groups_index@, groups) ==> #[trigger] rule_wf(
                    all_criteria@,
                    groups,
                    r.0,
                ),
    {
        let ghost usages_before = recorded(ctx.variable_usages@);
        let ghost errors_before = error_views(ctx.errors@);
        let ghost listed = self.instructions@;
        let mut k: usize = 0;
        assert(recorded(ctx.variable_usages@) =~= usages_before + instruction_usages(
            listed,
            0,
            name@,
        ));
        while k < self.instructions.len()
            invariant
                k <= self.instructions@.len(),
                listed == self.instructions@,
                ctx.encoder == old(ctx).encoder,
                ctx.errors == old(ctx).errors,
                recorded(ctx.variable_usages@) == usages_before + instruction_usages(
                    listed,
                    k as int,
                    name@,
                ),
            decreases self.instructions@.len() - k,
        {
            let instruction = &self.instructions[k];
            let usage = VariableUsage {
                infered_type: instruction.operation.kind(),
                location: VariableLocation::Rule(name.duplicate()),
            };
            let ghost now = recorded(ctx.variable_usages@);
            let ghost added = (instruction.variable@, usage@);
            ctx.variable_usages.push((instruction.variable.duplicate(), usage));
            assert(recorded(ctx.variable_usages@) =~= now.push(added));
            k += 1;
            assert(recorded(ctx.variable_usages@) =~= usages_before + instruction_usages(
                listed,
                k as int,
                name@,
            ));
        }
        let mut pending = self.instructions;
        let mut instructions: Table<(bool, Operation)> = Table::new();
        while pending.len() > 0
            invariant
                pending@.len() <= listed.len(),
                pending@ == listed.take(pending@.len() as int),
                instructions.wf(),
                instructions@ == last_wins(listed, pending@.len() as int),
            decreases pending@.len(),
        {
            let ghost m = pending@.len() - 1;
            let instruction = pending.pop().unwrap();
            assert(instruction == listed[m]);
            assert(pending@ =~= listed.take(m));
            if !instructions.contains(&instruction.variable) {
                instructions.insert(
                    instruction.variable,
                    (instruction.global, instruction.operation),
                );
            }
        }
        let ghost index = criteria_index@;
        let ghost all = all_criteria@;
        let mut score: u32 = num::ZERO;
        let mut tested: Table<usize> = Table::new();
        let mut assigned: Table<u32> = Table::new();
        let mut repeated: Table<()> = Table::new();
        let mut i: usize = 0;
        assert(error_views(ctx.errors@) =~= errors_before + unresolved().errors);
        assert(tested@ =~= unresolved().tested);
        assert(assigned@ =~= unresolved().assigned);
        assert(repeated@ =~= unresolved().repeated);
        while i < self.criteria.len()
            invariant
                i <= self.criteria@.len(),
                index == criteria_index@,
                all == all_criteria@,
                criteria_index.wf(),
                index_in_range(index, all.len() as int),
                ctx.encoder == old(ctx).encoder,
                recorded(ctx.variable_usages@) == usages_before + instruction_usages(
                    listed,
                    listed.len() as int,
                    name@,
                ),
                tested.wf(),
                assigned.wf(),
                repeated.wf(),
                tested_match(tested@, all),
                (Resolved {
                    score,
                    tested: tested@,
                    assigned: assigned@,
                    repeated: repeated@,
                    errors: resolved(self.criteria@, i as int, name@, all, index).errors,
                }) == resolved(self.criteria@, i as int, name@, all, index),
                error_views(ctx.errors@) == errors_before + resolved(
                    self.criteria@,
                    i as int,
                    name@,
                    all,
                    index,
                ).errors,
            decreases self.criteria@.len() - i,
        {
            let criterion_name = &self.criteria[i];
            let ghost errors_now = error_views(ctx.errors@);
            let ghost so_far = resolved(self.criteria@, i as int, name@, all, index);
            match criteria_index.get(criterion_name) {
                None => {
                    let error = CompileError::MissingCriterion {
                        criterion_name: criterion_name.duplicate(),
                        in_rule: name.duplicate(),
                    };
                    let ghost e = error@;
                    ctx.errors.push(error);
                    assert(error_views(ctx.errors@) =~= errors_now.push(e));
                    assert(error_views(ctx.errors@) =~= errors_before + so_far.errors.push(e));
                },
                Some(entry) => {
                    proof {
                        lemma_lookup_is_entry(index, criterion_name@);
                        let k = choose|k: int|
                            0 <= k < index.len() && (#[trigger] index[k]).1 == *entry;
                        assert((index[k].1.0 as int) < all.len());
                    }
                    let at = entry.0;
                    let weight = entry.1;
                    let partition = entry.2;
                    let criterion = &all_criteria[at];
                    if !tested.contains(&criterion.variable) && !assigned.contains(
                        &criterion.variable,
                    ) {
                        score = soft::add_bits(score, weight);
                        if partition {
                            assigned.insert(criterion.variable.duplicate(), criterion.min);
                        } else {
                            proof {
                                lemma_tested_match_updated(tested@, all, at);
                            }
                            tested.insert(criterion.variable.duplicate(), at);
                        }
                    } else if !repeated.contains(&criterion.variable) {
                        repeated.insert(criterion.variable.duplicate(), ());
                        let error = CompileError::RepeatedVariable {
                            criterion_name: criterion_name.duplicate(),
                            in_rule: name.duplicate(),
                        };
                        let ghost e = error@;
                        ctx.errors.push(error);
                        assert(error_views(ctx.errors@) =~= errors_now.push(e));
                        assert(error_views(ctx.errors@) =~= errors_before + so_far.errors.push(e));
                    }
                },
            }
            i += 1;
        }
        let ghost done = resolved(self.criteria@, self.criteria@.len() as int, name@, all, index);
        let ghost gindex = response_groups_index@;
        let ghost errors_mid = error_views(ctx.errors@);
        let mut response_groups: Vec<usize> = Vec::new();
        let mut g: usize = 0;
        assert(error_views(ctx.errors@) =~= errors_mid + missing_groups(
            self.response_groups@,
            0,
            name@,
            gindex,
        ));
        while g < self.response_groups.len()
            invariant
                g <= self.response_groups@.len(),
                gindex == response_groups_index@,
                response_groups_index.wf(),
                ctx.encoder == old(ctx).encoder,
                recorded(ctx.variable_usages@) == usages_before + instruction_usages(
                    listed,
                    listed.len() as int,
                    name@,
                ),
                response_groups@ == resolved_groups(self.response_groups@, g as int, gindex),
                forall|j: int|
                    0 <= j < response_groups@.len() ==> is_value_in(
                        gindex,
                        #[trigger] response_groups@[j],
                    ),
                error_views(ctx.errors@) == errors_mid + missing_groups(
                    self.response_groups@,
                    g as int,
                    name@,
                    gindex,
                ),
            decreases self.response_groups@.len() - g,
        {
            let group_name = &self.response_groups[g];
            let ghost errors_now = error_views(ctx.errors@);
            let ghost misses = missing_groups(self.response_groups@, g as int, name@, gindex);
            match response_groups_index.get(group_name) {
                Some(place) => {
                    proof {
                        lemma_lookup_is_entry(gindex, group_name@);
                    }
                    let ghost before = response_groups@;
                    response_groups.push(*place);
                    assert forall|j: int| 0 <= j < response_groups@.len() implies is_value_in(
                        gindex,
                        #[trigger] response_groups@[j],
                    ) by {
                        if j < before.len() {
                            assert(response_groups@[j] == before[j]);
                        }
                    }
                },
                None => {
                    let error = CompileError::MissingResponseGroup {
                        group_name: group_name.duplicate(),
                        in_rule: name.duplicate(),
                    };
                    let ghost e = error@;
                    ctx.errors.push(error);
                    assert(error_views(ctx.errors@) =~= errors_now.push(e));
                    assert(error_views(ctx.errors@) =~= errors_mid + misses.push(e));
                },
            }
            g += 1;
        }
        let mut criteria: Vec<usize> = Vec::new();
        let mut c: usize = 0;
        while c < tested.len()
            invariant
                c <= tested@.len(),
                criteria@.len() == c,
                forall|j: int| 0 <= j < c ==> #[trigger] criteria@[j] == tested@[j].1,
            decreases tested@.len() - c,
        {
            criteria.push(*tested.value_at(c));
            c += 1;
        }
        assert(criteria@ =~= values_of(tested@));
        let mut partition_key: Vec<(Name, u32)> = Vec::new();
        let mut a: usize = 0;
        while a < assigned.len()
            invariant
                a <= assigned@.len(),
                partition_key@.len() == a,
                forall|j: int|
                    0 <= j < a ==> (#[trigger] partition_key@[j]).0@ == assigned@[j].0
                        && partition_key@[j].1 == assigned@[j].1,
            decreases assigned@.len() - a,
        {
            partition_key.push((assigned.name_at(a).duplicate(), *assigned.value_at(a)));
            a += 1;
        }
        assert(assignments_of(partition_key@) =~= assigned@);
        assert(error_views(ctx.errors@) =~= errors_before + done.errors + missing_groups(
            self.response_groups@,
            self.response_groups@.len() as int,
            name@,
            gindex,
        ));
        let rule = EngineRule { criteria, response_groups, instructions, score, enabled: true };
        proof {
            assert forall|groups: int| groups_in_range(gindex, groups) implies #[trigger] rule_wf(
                all,
                groups,
                rule,
            ) by {
                assert forall|x: int, y: int| 0 <= x < y < rule.criteria@.len() implies precedes(
                    #[trigger] tested_variable(all, rule, x),
                    #[trigger] tested_variable(all, rule, y),
                ) by {
                    assert(tested@[x].1 == rule.criteria@[x]);
                    assert(tested@[y].1 == rule.criteria@[y]);
                    assert(precedes(tested@[x].0, tested@[y].0));
                }
                assert forall|x: int| 0 <= x < rule.criteria@.len() implies (
                #[trigger] rule.criteria@[x] as int) < all.len() by {
                    assert(tested@[x].1 == rule.criteria@[x]);
                }
                assert forall|x: int| 0 <= x < rule.response_groups@.len() implies (
                #[trigger] rule.response_groups@[x] as int) < groups by {
                    assert(is_value_in(gindex, rule.response_groups@[x]));
                    let k = choose|k: int|
                        0 <= k < gindex.len() && (#[trigger] gindex[k]).1
                            == rule.response_groups@[x];
                    assert((gindex[k].1 as int) < groups);
                }
            }
        }
        (rule, partition_key)
    }
}

/// A number lies within the bounds of a compiled range.
pub open spec fn within(bounds: (u32, u32), value: u32) -> bool {
    num::le(bounds.0, value) && num::le(value, bounds.1)
}

/// A range with both bounds holds of the numbers from the lower bound up
/// to the upper bound, both included.
pub proof fn lemma_closed_range(low: u32, high: u32, value: u32, names: Seq<Seq<u8>>)
    ensures
        within(bounds(Predicate::NumRange(Some(low), Some(high)), names), value) <==> num::le(
            low,
            value,
        ) && num::le(value, high),
{
}

/// A range whose upper bound was stepped down holds of the numbers from
/// the lower bound up to, not including, the bound as written. Negative
/// infinity, which has nothing below it, is left out.
pub proof fn lemma_exclusive_range(low: u32, high: u32, value: u32, names: Seq<Seq<u8>>)
    requires
        high != num::NEG_INFINITY,
    ensures
        within(bounds(Predicate::NumRange(Some(low), Some(num::next_down(high))), names), value)
            <==> num::le(low, value) && num::lt(value, high),
        !num::is_nan(high) ==> !within(
            bounds(Predicate::NumRange(Some(low), Some(num::next_down(high))), names),
            high,
        ),
        num::le(low, high) ==> within(
            bounds(Predicate::NumRange(Some(low), Some(high)), names),
            high,
        ),
{
    num::lemma_next_down_closes_open_bound(high, value);
    num::lemma_next_down_closes_open_bound(high, high);
}

/// A range without a bound on one side holds of every number on that side:
/// without a lower bound of all numbers up to the upper bound, without an
/// upper bound of all numbers from the lower bound on, and without either
/// of every number. It never holds of a NaN.
pub proof fn lemma_open_ranges(bound: u32, value: u32, names: Seq<Seq<u8>>)
    ensures
        within(bounds(Predicate::NumRange(None, Some(bound)), names), value) <==> num::le(
            value,
            bound,
        ),
        within(bounds(Predicate::NumRange(Some(bound), None), names), value) <==> num::le(
            bound,
            value,
        ),
        within(bounds(Predicate::NumRange(None, None), names), value) <==> !num::is_nan(value),
{
    num::lemma_infinities_bound_everything(value);
}

/// What resolving the criteria of a rule gives keeps its tables in
/// ascending order, and no variable is both tested at run time and given a
/// value by a partition criterion.
pub proof fn lemma_resolved_apart(
    names: Seq<Name>,
    n: int,
    rule_name: Seq<u8>,
    all: Seq<EngineCriterion>,
    index: Seq<(Seq<u8>, (usize, u32, bool))>,
)
    ensures
        ascending(resolved(names, n, rule_name, all, index).tested),
        ascending(resolved(names, n, rule_name, all, index).assigned),
        forall|variable: Seq<u8>|
            !(holds(resolved(names, n, rule_name, all, index).tested, variable) && holds(
                resolved(names, n, rule_name, all, index).assigned,
                variable,
            )),
    decreases n,
{
    if 0 < n <= names.len() {
        lemma_resolved_apart(names, n - 1, rule_name, all, index);
        let so_far = resolved(names, n - 1, rule_name, all, index);
        let now = resolved(names, n, rule_name, all, index);
        match lookup(index, names[n - 1]@) {
            None => {},
            Some((i, weight, partition)) => {
                let variable = all[i as int].variable@;
                if !holds(so_far.tested, variable) && !holds(so_far.assigned, variable) {
                    if partition {
                        crate::props::lemma_updated(so_far.assigned, variable, all[i as int].min);
                        assert forall|v: Seq<u8>| !(holds(now.tested, v) && holds(
                            now.assigned,
                            v,
                        )) by {
                            if v != variable {
                                assert(lookup(now.assigned, v) == lookup(so_far.assigned, v));
                            }
                        }
                    } else {
                        crate::props::lemma_updated(so_far.tested, variable, i);
                        assert forall|v: Seq<u8>| !(holds(now.tested, v) && holds(
                            now.assigned,
                            v,
                        )) by {
                            if v != variable {
                                assert(lookup(now.tested, v) == lookup(so_far.tested, v));
                            }
                        }
                    }
                }
            },
        }
    }
}

/// A rule without criteria scores zero and has nothing to test.
pub proof fn lemma_rule_without_criteria_scores_zero(
    names: Seq<Name>,
    rule_name: Seq<u8>,
    all: Seq<EngineCriterion>,
    index: Seq<(Seq<u8>, (usize, u32, bool))>,
)
    requires
        names.len() == 0,
    ensures
        resolved(names, names.len() as int, rule_name, all, index).score == num::ZERO,
        values_of(resolved(names, names.len() as int, rule_name, all, index).tested).len() == 0,
        resolved(names, names.len() as int, rule_name, all, index).assigned.len() == 0,
{
}

} // verus!
