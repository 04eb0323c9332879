//! The changes that a rule makes to the character and to the world.
use crate::encoder::after_seeing;
use crate::encoder::Encoder;
use crate::model::Operation;
use crate::name::Name;
use crate::props::lookup;
use crate::props::updated;
use crate::props::Props;
use crate::soft;
use crate::table::Table;
use crate::value::Value;
use crate::value::ValueView;
use vstd::prelude::*;

verus! {

/// The value that an operation leaves in a variable, given what the
/// variable held. Toggling negates a boolean and makes anything else true;
/// adding adds to a number and takes anything else for zero; setting sets.
pub open spec fn effect(current: Option<ValueView>, operation: Operation) -> ValueView {
    match operation {
        Operation::BoolSet(b) => ValueView::Bool(b),
        Operation::BoolToggle => match current {
            Some(ValueView::Bool(b)) => ValueView::Bool(!b),
            _ => ValueView::Bool(true),
        },
        Operation::NumSet(n) => ValueView::Num(n),
        Operation::NumAdd(n) => match current {
            Some(ValueView::Num(v)) => ValueView::Num(soft::sum_bits(v, n)),
            _ => ValueView::Num(n),
        },
        Operation::StrSet(s) => ValueView::Str(s@),
    }
}

/// What instructions work on: the character's properties, the world's, and
/// the strings that the encoder has seen.
pub struct Stores {
    pub character: Seq<(Seq<u8>, ValueView)>,
    pub world: Seq<(Seq<u8>, ValueView)>,
    pub names: Seq<Seq<u8>>,
}

/// The stores after one instruction: the variable of the world, if the
/// instruction is global, or of the character holds the effect of the
/// operation, and a string that was set is known to the encoder.
pub open spec fn after_instruction(
    stores: Stores,
    variable: Seq<u8>,
    global: bool,
    operation: Operation,
) -> Stores {
    let names = match operation {
        Operation::StrSet(s) => after_seeing(stores.names, s@),
        _ => stores.names,
    };
    if global {
        Stores {
            character: stores.character,
            world: updated(
                stores.world,
                variable,
                effect(lookup(stores.world, variable), operation),
            ),
            names,
        }
    } else {
        Stores {
            character: updated(
                stores.character,
                variable,
                effect(lookup(stores.character, variable), operation),
            ),
            world: stores.world,
            names,
        }
    }
}

/// The stores after the first `n` instructions of a rule, taken in
/// ascending order of their variables.
pub open spec fn after_instructions(
    instructions: Seq<(Seq<u8>, (bool, Operation))>,
    n: int,
    stores: Stores,
) -> Stores
    decreases n,
{
    if n <= 0 || n > instructions.len() {
        stores
    } else {
        after_instruction(
            after_instructions(instructions, n - 1, stores),
            instructions[n - 1].0,
            instructions[n - 1].1.0,
            instructions[n - 1].1.1,
        )
    }
}

/// The value that an operation leaves in a variable.
pub fn outcome(current: Option<Value>, operation: &Operation) -> (r: Value)
    ensures
        r@ == effect(
            match current {
                Some(v) => Some(v@),
                None => None,
            },
            *operation,
        ),
{
    match operation {
        Operation::BoolSet(b) => Value::Bool(*b),
        Operation::BoolToggle => match current {
            Some(Value::Bool(b)) => Value::Bool(!b),
            _ => Value::Bool(true),
        },
        Operation::NumSet(n) => Value::Num(*n),
        Operation::NumAdd(n) => match current {
            Some(Value::Num(v)) => Value::Num(soft::add_bits(v, *n)),
            _ => Value::Num(*n),
        },
        Operation::StrSet(s) => Value::Str(s.duplicate()),
    }
}

/// Carries out one instruction.
pub fn apply_instruction(
    variable: &Name,
    global: bool,
    operation: &Operation,
    character: &mut Props,
    world: &mut Props,
    encoder: &mut Encoder,
)
    requires
        old(character).wf(),
        old(world).wf(),
        old(encoder).wf(),
    ensures
        final(character).wf(),
        final(world).wf(),
        final(encoder).wf(),
        (Stores { character: final(character)@, world: final(world)@, names: final(encoder)@ })
            == after_instruction(
            Stores { character: old(character)@, world: old(world)@, names: old(encoder)@ },
            variable@,
            global,
            *operation,
        ),
{
    match operation {
        Operation::StrSet(s) => {
            let _ = encoder.encode_ustr(s);
        },
        _ => {},
    }
    if global {
        let current = world.get_value(variable);
        let value = outcome(current, operation);
        world.set(variable.duplicate(), value);
    } else {
        let current = character.get_value(variable);
        let value = outcome(current, operation);
        character.set(variable.duplicate(), value);
    }
}

/// Carries out the instructions of a rule, in ascending order of their
/// variables.
pub fn apply_instructions(
    instructions: &Table<(bool, Operation)>,
    character: &mut Props,
    world: &mut Props,
    encoder: &mut Encoder,
)
    requires
        old(character).wf(),
        old(world).wf(),
        old(encoder).wf(),
    ensures
        final(character).wf(),
        final(world).wf(),
        final(encoder).wf(),
        (Stores { character: final(character)@, world: final(world)@, names: final(encoder)@ })
            == after_instructions(
            instructions@,
            instructions@.len() as int,
            Stores { character: old(character)@, world: old(world)@, names: old(encoder)@ },
        ),
{
    let ghost start = Stores { character: character@, world: world@, names: encoder@ };
    let mut i: usize = 0;
    while i < instructions.len()
        invariant
            i <= instructions@.len(),
            character.wf(),
            world.wf(),
            encoder.wf(),
            (Stores { character: character@, world: world@, names: encoder@ })
                == after_instructions(instructions@, i as int, start),
        decreases instructions@.len() - i,
    {
        let entry = instructions.value_at(i);
        apply_instruction(instructions.name_at(i), entry.0, &entry.1, character, world, encoder);
        i += 1;
    }
}

} // verus!
