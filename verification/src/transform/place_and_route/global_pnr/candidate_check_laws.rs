//! What a placed module does that passes its check.

use super::candidate_check::{
    all_pass, cells_named, check_masks, combinations, expected_row, history, input_names, is_check, is_on, mask_count,
    observes, output_names, passes, settings, CheckError, CheckSetup, TruthTable,
};
use super::candidate_layout::{endpoint_from, PlacedEndpoint, PlacedWorld};
use crate::world::grid::World3D;
use crate::world::position::Position;
use vstd::prelude::*;

verus! {

/// The number whose binary digits inputs are, the first input having the lowest.
pub open spec fn number_of(inputs: Seq<bool>) -> nat
    decreases inputs.len(),
{
    if inputs.len() == 0 {
        0
    } else {
        (if inputs[0] {
            1nat
        } else {
            0
        }) + 2 * number_of(inputs.skip(1))
    }
}

proof fn number_has_digits(inputs: Seq<bool>, input: nat)
    requires
        input < inputs.len(),
    ensures
        is_on(number_of(inputs), input) == inputs[input as int],
    decreases input,
{
    if input > 0 {
        number_has_digits(inputs.skip(1), (input - 1) as nat);
        assert(number_of(inputs) / 2 == number_of(inputs.skip(1)));
    }
}

proof fn number_is_small(inputs: Seq<bool>)
    ensures
        number_of(inputs) < combinations(inputs.len()),
    decreases inputs.len(),
{
    if inputs.len() > 0 {
        number_is_small(inputs.skip(1));
    }
}

/// Whether settings give some cells their values.
pub open spec fn sets(step: Seq<(Position, bool)>, cells: Seq<Position>, values: Seq<bool>) -> bool {
    &&& step.len() == cells.len()
    &&& values.len() == cells.len()
    &&& forall|i: int| 0 <= i < cells.len() ==> (#[trigger] step[i]).0 == cells[i] && step[i].1 == values[i]
}

/// Whether settings give some cells their values one after the other.
pub open spec fn set_in_turn(
    steps: Seq<Seq<(Position, bool)>>,
    cells: Seq<Position>,
    turns: Seq<Seq<bool>>,
) -> bool {
    &&& steps.len() == turns.len()
    &&& forall|k: int| 0 <= k < turns.len() ==> sets(#[trigger] steps[k], cells, turns[k])
}

/// Whether each name has its cell: that of the first endpoint of that name.
pub open spec fn are_cells_of(endpoints: Seq<PlacedEndpoint>, names: Seq<Seq<char>>, cells: Seq<Position>) -> bool {
    &&& cells.len() == names.len()
    &&& forall|i: int| 0 <= i < names.len() ==> is_cell_of(endpoints, #[trigger] names[i], cells[i])
}

/// Whether a cell is that of the first endpoint of a name.
pub open spec fn is_cell_of(endpoints: Seq<PlacedEndpoint>, name: Seq<char>, cell: Position) -> bool {
    exists|k: int|
        {
            &&& 0 <= k < endpoints.len()
            &&& (#[trigger] endpoints[k]).name@ == name
            &&& endpoints[k].position == cell
            &&& forall|j: int| 0 <= j < k ==> (#[trigger] endpoints[j]).name@ != name
        }
}

proof fn endpoint_is_first(endpoints: Seq<PlacedEndpoint>, name: Seq<char>, start: nat)
    requires
        start <= endpoints.len(),
        forall|j: int| 0 <= j < start ==> (#[trigger] endpoints[j]).name@ != name,
    ensures
        match endpoint_from(endpoints, name, start) {
            Some(cell) => is_cell_of(endpoints, name, cell),
            None => forall|j: int| 0 <= j < endpoints.len() ==> (#[trigger] endpoints[j]).name@ != name,
        },
    decreases endpoints.len() - start,
{
    if start < endpoints.len() {
        if endpoints[start as int].name@ != name {
            endpoint_is_first(endpoints, name, start + 1);
        }
    }
}

proof fn named_cells_are_first(endpoints: Seq<PlacedEndpoint>, names: Seq<Seq<char>>, count: nat)
    requires
        count <= names.len(),
    ensures
        match cells_named(endpoints, names, count) {
            Ok(cells) => are_cells_of(endpoints, names.take(count as int), cells),
            Err(name) => names.contains(name) && forall|j: int|
                0 <= j < endpoints.len() ==> (#[trigger] endpoints[j]).name@ != name,
        },
    decreases count,
{
    if count > 0 {
        named_cells_are_first(endpoints, names, (count - 1) as nat);
        endpoint_is_first(endpoints, names[count - 1], 0);
        if let Ok(cells) = cells_named(endpoints, names, count) {
            let fewer = cells_named(endpoints, names, (count - 1) as nat)->Ok_0;
            let some = names.take(count as int);
            assert forall|i: int| 0 <= i < some.len() implies is_cell_of(endpoints, #[trigger] some[i], cells[i]) by {
                if i < count - 1 {
                    assert(names.take(count - 1)[i] == some[i]);
                    assert(cells[i] == fewer[i]);
                }
            }
        }
    }
}

/// Whether a placed module is seen to compute a table: brought to values of its
/// inputs, one after the other, its outputs are what the table says of the last
/// of them.
pub open spec fn computes_after<
    F: Fn(&World3D, &Vec<Vec<(Position, bool)>>, &Vec<Position>, bool) -> Result<Vec<bool>, String>,
>(
    table: TruthTable,
    world: World3D,
    observe: &F,
    inputs: Seq<Position>,
    outputs: Seq<Position>,
    turns: Seq<Seq<bool>>,
) -> bool {
    exists|steps: Seq<Seq<(Position, bool)>>, row: Vec<bool>|
        {
            &&& #[trigger] observes(observe, world, steps, outputs, false, Ok::<Vec<bool>, String>(row))
            &&& set_in_turn(steps, inputs, turns)
            &&& row@.len() == table.output_tables@.len()
            &&& forall|k: int|
                0 <= k < row@.len() ==> #[trigger] row@[k] == table.output_tables@[k].values@[number_of(turns.last()) as int]
        }
}

proof fn history_sets(cells: Seq<Position>, masks: Seq<nat>, turns: Seq<Seq<bool>>)
    requires
        masks.len() == turns.len(),
        forall|k: int| 0 <= k < turns.len() ==> (#[trigger] turns[k]).len() == cells.len() && number_of(turns[k]) == masks[k],
    ensures
        set_in_turn(history(cells, masks), cells, turns),
{
    let steps = history(cells, masks);
    assert forall|k: int| 0 <= k < turns.len() implies sets(#[trigger] steps[k], cells, turns[k]) by {
        let values = turns[k];
        assert(steps[k] == settings(cells, masks[k]));
        assert forall|i: int| 0 <= i < cells.len() implies (#[trigger] steps[k][i]).0 == cells[i] && steps[k][i].1
            == values[i] by {
            number_has_digits(values, i as nat);
        }
    }
}

/// A placed module that matches its table has a cell for each name of an input and
/// an output, and computes the table: from a fresh start for every combination of
/// inputs, and also while the inputs go through all combinations, upwards and down
/// again, without a fresh start between them.
pub proof fn matching_module_computes_its_table<
    F: Fn(&World3D, &Vec<Vec<(Position, bool)>>, &Vec<Position>, bool) -> Result<Vec<bool>, String>,
>(table: &TruthTable, placed: PlacedWorld, observe: &F) -> (cells: (Seq<Position>, Seq<Position>))
    requires
        is_check(table, placed, observe, Ok::<bool, CheckError>(true)),
    ensures
        are_cells_of(placed.inputs@, input_names(*table), cells.0),
        are_cells_of(placed.outputs@, output_names(*table), cells.1),
        forall|values: Seq<bool>|
            values.len() == table.input_names@.len() ==> computes_after(
                *table,
                placed.world,
                observe,
                cells.0,
                cells.1,
                #[trigger] seq![values],
            ),
        forall|turns: Seq<Seq<bool>>|
            is_up_and_down(turns, table.input_names@.len()) ==> #[trigger] computes_after(
                *table,
                placed.world,
                observe,
                cells.0,
                cells.1,
                turns,
            ),
{
    let count = table.input_names@.len();
    named_cells_are_first(placed.inputs@, input_names(*table), count);
    named_cells_are_first(placed.outputs@, output_names(*table), table.output_tables@.len());
    let inputs = cells_named(placed.inputs@, input_names(*table), count)->Ok_0;
    let outputs = cells_named(placed.outputs@, output_names(*table), table.output_tables@.len())->Ok_0;
    assert(input_names(*table).take(count as int) =~= input_names(*table));
    assert(output_names(*table).take(table.output_tables@.len() as int) =~= output_names(*table));
    let setup = CheckSetup { world: placed.world, inputs, outputs, tables: table.output_tables@ };
    let total = mask_count(setup);
    assert(all_pass(observe, setup, 3 * (total as int)));
    assert forall|values: Seq<bool>| values.len() == count implies computes_after(
        *table,
        placed.world,
        observe,
        inputs,
        outputs,
        #[trigger] seq![values],
    ) by {
        number_is_small(values);
        let mask = number_of(values);
        check_is_seen(table, observe, setup, mask as int, seq![values]);
    }
    assert forall|turns: Seq<Seq<bool>>| is_up_and_down(turns, count) implies #[trigger] computes_after(
        *table,
        placed.world,
        observe,
        inputs,
        outputs,
        turns,
    ) by {
        let index = total + turns.len() - 1;
        let masks = check_masks(total, index);
        assert forall|k: int| 0 <= k < turns.len() implies (#[trigger] turns[k]).len() == inputs.len() && number_of(
            turns[k],
        ) == masks[k] by {}
        check_is_seen(table, observe, setup, index, turns);
    }
    (inputs, outputs)
}

/// Whether inputs go through all combinations, or the first of them, one after the
/// other: upwards, and once they are at the last down again.
pub open spec fn is_up_and_down(turns: Seq<Seq<bool>>, count: nat) -> bool {
    let total = combinations(count);
    &&& 0 < turns.len() <= 2 * total
    &&& forall|k: int|
        0 <= k < turns.len() ==> (#[trigger] turns[k]).len() == count && number_of(turns[k]) == (if k < total {
            k
        } else {
            2 * total - 1 - k
        })
}

proof fn check_is_seen<
    F: Fn(&World3D, &Vec<Vec<(Position, bool)>>, &Vec<Position>, bool) -> Result<Vec<bool>, String>,
>(table: &TruthTable, observe: &F, setup: CheckSetup, index: int, turns: Seq<Seq<bool>>)
    requires
        setup.tables == table.output_tables@,
        passes(observe, setup, index),
        turns.len() > 0,
        check_masks(mask_count(setup), index).len() == turns.len(),
        forall|k: int|
            0 <= k < turns.len() ==> (#[trigger] turns[k]).len() == setup.inputs.len() && number_of(turns[k])
                == check_masks(mask_count(setup), index)[k],
    ensures
        computes_after(*table, setup.world, observe, setup.inputs, setup.outputs, turns),
{
    let masks = check_masks(mask_count(setup), index);
    let steps = history(setup.inputs, masks);
    history_sets(setup.inputs, masks, turns);
    let row = choose|row: Vec<bool>| #[trigger]
        observes(observe, setup.world, steps, setup.outputs, false, Ok::<Vec<bool>, String>(row)) && row@
            == expected_row(setup.tables, masks.last());
    assert(observes(observe, setup.world, steps, setup.outputs, false, Ok::<Vec<bool>, String>(row)));
    assert(turns.last() == turns[turns.len() - 1]);
    assert(number_of(turns.last()) == masks.last());
}

} // verus!
