//! Checking that a placed module computes what it should: from a fresh start
//! for every combination of inputs, and while inputs change.

use super::candidate_layout::{endpoint_from, find_endpoint, PlacedEndpoint, PlacedWorld};
use crate::text::join3;
use crate::world::grid::World3D;
use crate::world::position::Position;
use vstd::prelude::*;

verus! {

/// The values of one output, one for each combination of inputs.
#[derive(Clone, Debug)]
pub struct OutputTable {
    pub name: String,
    pub values: Vec<bool>,
}

/// What outputs are for every combination of inputs. In combination `n` an
/// input is on where its binary digit of `n` is one, the first input having the
/// lowest digit.
#[derive(Clone, Debug)]
pub struct TruthTable {
    pub input_names: Vec<String>,
    pub output_tables: Vec<OutputTable>,
}

/// A check that could not be made.
#[derive(Clone, Debug)]
pub enum CheckError {
    /// The placed module lacks an input.
    MissingInput(String),
    /// The placed module lacks an output.
    MissingOutput(String),
    /// The module could not be simulated.
    Simulation(String),
}

/// The message of an error.
pub open spec fn check_error_chars(error: CheckError) -> Seq<char> {
    match error {
        CheckError::MissingInput(name) => "missing input endpoint `"@ + name@ + "`"@,
        CheckError::MissingOutput(name) => "missing output endpoint `"@ + name@ + "`"@,
        CheckError::Simulation(text) => text@,
    }
}

impl CheckError {
    /// The error in words.
    pub fn message(&self) -> (text: String)
        ensures
            text@ == check_error_chars(*self),
    {
        match self {
            CheckError::MissingInput(name) => join3("missing input endpoint `", name.as_str(), "`"),
            CheckError::MissingOutput(name) => join3("missing output endpoint `", name.as_str(), "`"),
            CheckError::Simulation(text) => text.clone(),
        }
    }
}

/// The number of combinations of a number of inputs.
pub open spec fn combinations(inputs: nat) -> nat
    decreases inputs,
{
    if inputs == 0 {
        1
    } else {
        2 * combinations((inputs - 1) as nat)
    }
}

/// Whether an input is on in a combination.
pub open spec fn is_on(mask: nat, input: nat) -> bool
    decreases input,
{
    if input == 0 {
        mask % 2 == 1
    } else {
        is_on(mask / 2, (input - 1) as nat)
    }
}

/// The settings of inputs in a combination.
pub open spec fn settings(cells: Seq<Position>, mask: nat) -> Seq<(Position, bool)> {
    Seq::new(cells.len(), |i: int| (cells[i], is_on(mask, i as nat)))
}

/// The settings of inputs in several combinations.
pub open spec fn history(cells: Seq<Position>, masks: Seq<nat>) -> Seq<Seq<(Position, bool)>> {
    masks.map_values(|mask: nat| settings(cells, mask))
}

/// What outputs are to be in a combination.
pub open spec fn expected_row(tables: Seq<OutputTable>, mask: nat) -> Seq<bool> {
    tables.map_values(|table: OutputTable| table.values@[mask as int])
}

/// The settings of a list of lists.
pub open spec fn setting_views(steps: Seq<Vec<(Position, bool)>>) -> Seq<Seq<(Position, bool)>> {
    steps.map_values(|step: Vec<(Position, bool)>| step@)
}

/// Whether a simulation can be asked anything.
pub open spec fn is_simulation<
    F: Fn(&World3D, &Vec<Vec<(Position, bool)>>, &Vec<Position>, bool) -> Result<Vec<bool>, String>,
>(observe: &F) -> bool {
    forall|world: World3D, given: Vec<Vec<(Position, bool)>>, cells: Vec<Position>, rest: bool| #[trigger]
        call_requires(*observe, (&world, &given, &cells, rest))
}

/// Whether a simulation that goes through settings one after the other, and
/// rests after each but the last, or after all of them, comes to an outcome.
pub open spec fn observes<F: Fn(&World3D, &Vec<Vec<(Position, bool)>>, &Vec<Position>, bool) -> Result<Vec<bool>, String>>(
    observe: &F,
    world: World3D,
    steps: Seq<Seq<(Position, bool)>>,
    outputs: Seq<Position>,
    rest: bool,
    outcome: Result<Vec<bool>, String>,
) -> bool {
    exists|given: Vec<Vec<(Position, bool)>>, cells: Vec<Position>| #[trigger]
        call_ensures(*observe, (&world, &given, &cells, rest), outcome) && setting_views(given@) == steps && cells@ == outputs
}

/// The combinations that inputs go through while they change: up through all,
/// and down again.
pub open spec fn sweep(count: nat) -> Seq<nat> {
    Seq::new(2 * count, |k: int| if k < count { k as nat } else { (2 * count - 1 - k) as nat })
}

/// The settings of check `index`: a single combination from a fresh start, and
/// behind those the sweep up to one of its combinations.
pub open spec fn check_masks(count: nat, index: int) -> Seq<nat> {
    if index < count {
        seq![index as nat]
    } else {
        sweep(count).take(index - count + 1)
    }
}

/// What a check needs: the world, the cells of inputs and outputs and the table.
pub ghost struct CheckSetup {
    pub world: World3D,
    pub inputs: Seq<Position>,
    pub outputs: Seq<Position>,
    pub tables: Seq<OutputTable>,
}

/// The number of combinations of a setup.
pub open spec fn mask_count(setup: CheckSetup) -> nat {
    combinations(setup.inputs.len())
}

/// Whether a check sees the expected outputs, and inputs can be left alone after
/// it.
pub open spec fn passes<F: Fn(&World3D, &Vec<Vec<(Position, bool)>>, &Vec<Position>, bool) -> Result<Vec<bool>, String>>(
    observe: &F,
    setup: CheckSetup,
    index: int,
) -> bool {
    let masks = check_masks(mask_count(setup), index);
    let steps = history(setup.inputs, masks);
    &&& exists|row: Vec<bool>| #[trigger]
        observes(observe, setup.world, steps, setup.outputs, false, Ok(row)) && row@ == expected_row(setup.tables, masks.last())
    &&& index >= mask_count(setup) ==> exists|row: Vec<bool>| #[trigger]
        observes(observe, setup.world, steps, setup.outputs, true, Ok(row))
}

/// Whether a check sees other outputs than expected.
pub open spec fn fails<F: Fn(&World3D, &Vec<Vec<(Position, bool)>>, &Vec<Position>, bool) -> Result<Vec<bool>, String>>(
    observe: &F,
    setup: CheckSetup,
    index: int,
) -> bool {
    let masks = check_masks(mask_count(setup), index);
    exists|row: Vec<bool>| #[trigger]
        observes(observe, setup.world, history(setup.inputs, masks), setup.outputs, false, Ok(row)) && row@ != expected_row(
            setup.tables,
            masks.last(),
        )
}

/// Whether a check ends in an error.
pub open spec fn breaks<F: Fn(&World3D, &Vec<Vec<(Position, bool)>>, &Vec<Position>, bool) -> Result<Vec<bool>, String>>(
    observe: &F,
    setup: CheckSetup,
    index: int,
    error: String,
) -> bool {
    let masks = check_masks(mask_count(setup), index);
    let steps = history(setup.inputs, masks);
    ||| observes(observe, setup.world, steps, setup.outputs, false, Err(error))
    ||| index >= mask_count(setup) && observes(observe, setup.world, steps, setup.outputs, true, Err(error))
}

/// Whether the first checks pass.
pub open spec fn all_pass<F: Fn(&World3D, &Vec<Vec<(Position, bool)>>, &Vec<Position>, bool) -> Result<Vec<bool>, String>>(
    observe: &F,
    setup: CheckSetup,
    count: int,
) -> bool {
    forall|index: int| 0 <= index < count ==> #[trigger] passes(observe, setup, index)
}

/// Whether a verdict is the one on a placed module whose inputs and outputs are
/// known.
pub open spec fn is_verdict<F: Fn(&World3D, &Vec<Vec<(Position, bool)>>, &Vec<Position>, bool) -> Result<Vec<bool>, String>>(
    observe: &F,
    setup: CheckSetup,
    result: Result<bool, CheckError>,
) -> bool {
    match result {
        Ok(matches) => if matches {
            all_pass(observe, setup, 3 * (mask_count(setup) as int))
        } else {
            exists|index: int|
                0 <= index < 3 * mask_count(setup) && all_pass(observe, setup, index) && #[trigger] fails(
                    observe,
                    setup,
                    index,
                )
        },
        Err(error) => exists|index: int, text: String|
            0 <= index < 3 * mask_count(setup) && all_pass(observe, setup, index) && #[trigger] breaks(
                observe,
                setup,
                index,
                text,
            ) && error == CheckError::Simulation(text),
    }
}

/// The cells of the first `count` names, or the first name without one.
pub open spec fn cells_named(
    endpoints: Seq<PlacedEndpoint>,
    names: Seq<Seq<char>>,
    count: nat,
) -> Result<Seq<Position>, Seq<char>>
    decreases count,
{
    if count == 0 {
        Ok(Seq::empty())
    } else {
        match cells_named(endpoints, names, (count - 1) as nat) {
            Err(name) => Err(name),
            Ok(cells) => match endpoint_from(endpoints, names[count - 1], 0) {
                None => Err(names[count - 1]),
                Some(cell) => Ok(cells.push(cell)),
            },
        }
    }
}

proof fn cells_named_fail(endpoints: Seq<PlacedEndpoint>, names: Seq<Seq<char>>, low: nat, high: nat)
    requires
        low <= high,
        cells_named(endpoints, names, low) is Err,
    ensures
        cells_named(endpoints, names, high) == cells_named(endpoints, names, low),
    decreases high,
{
    if low < high {
        cells_named_fail(endpoints, names, low, (high - 1) as nat);
    }
}

/// The names of inputs and of outputs.
pub open spec fn input_names(table: TruthTable) -> Seq<Seq<char>> {
    table.input_names@.map_values(|name: String| name@)
}

pub open spec fn output_names(table: TruthTable) -> Seq<Seq<char>> {
    table.output_tables@.map_values(|output: OutputTable| output.name@)
}

fn find_inputs(endpoints: &Vec<PlacedEndpoint>, table: &TruthTable) -> (result: Result<Vec<Position>, CheckError>)
    ensures
        match cells_named(endpoints@, input_names(*table), table.input_names@.len()) {
            Ok(cells) => result matches Ok(found) && found@ == cells && found@.len() == table.input_names@.len(),
            Err(missing) => result matches Err(CheckError::MissingInput(name)) && name@ == missing,
        },
{
    let ghost names = input_names(*table);
    let mut cells: Vec<Position> = Vec::new();
    let mut index: usize = 0;
    while index < table.input_names.len()
        invariant
            index <= table.input_names.len(),
            names == input_names(*table),
            cells.len() == index,
            cells_named(endpoints@, names, index as nat) == Ok::<Seq<Position>, Seq<char>>(cells@),
        decreases table.input_names.len() - index,
    {
        match find_endpoint(endpoints, table.input_names[index].as_str()) {
            None => {
                proof {
                    cells_named_fail(endpoints@, names, (index + 1) as nat, table.input_names@.len());
                }
                return Err(CheckError::MissingInput(table.input_names[index].clone()));
            },
            Some(cell) => {
                cells.push(cell);
            },
        }
        index += 1;
    }
    Ok(cells)
}

fn find_outputs(endpoints: &Vec<PlacedEndpoint>, table: &TruthTable) -> (result: Result<Vec<Position>, CheckError>)
    ensures
        match cells_named(endpoints@, output_names(*table), table.output_tables@.len()) {
            Ok(cells) => result matches Ok(found) && found@ == cells,
            Err(missing) => result matches Err(CheckError::MissingOutput(name)) && name@ == missing,
        },
{
    let ghost names = output_names(*table);
    let mut cells: Vec<Position> = Vec::new();
    let mut index: usize = 0;
    while index < table.output_tables.len()
        invariant
            index <= table.output_tables.len(),
            names == output_names(*table),
            cells_named(endpoints@, names, index as nat) == Ok::<Seq<Position>, Seq<char>>(cells@),
        decreases table.output_tables.len() - index,
    {
        match find_endpoint(endpoints, table.output_tables[index].name.as_str()) {
            None => {
                proof {
                    cells_named_fail(endpoints@, names, (index + 1) as nat, table.output_tables@.len());
                }
                return Err(CheckError::MissingOutput(table.output_tables[index].name.clone()));
            },
            Some(cell) => {
                cells.push(cell);
            },
        }
        index += 1;
    }
    Ok(cells)
}

fn settings_of(cells: &Vec<Position>, mask: usize) -> (list: Vec<(Position, bool)>)
    ensures
        list@ == settings(cells@, mask as nat),
{
    let mut list: Vec<(Position, bool)> = Vec::new();
    let mut rest: usize = mask;
    let mut index: usize = 0;
    while index < cells.len()
        invariant
            index <= cells.len(),
            list.len() == index,
            forall|i: int| 0 <= i < index ==> #[trigger] list@[i] == (cells@[i], is_on(mask as nat, i as nat)),
            forall|i: nat| #[trigger] is_on(rest as nat, i) == is_on(mask as nat, i + index as nat),
        decreases cells.len() - index,
    {
        let ghost before = rest;
        proof {
            assert(is_on(before as nat, 0) == is_on(mask as nat, 0 + index as nat));
        }
        list.push((cells[index], rest % 2 == 1));
        rest = rest / 2;
        proof {
            assert forall|i: nat| #[trigger] is_on(rest as nat, i) == is_on(mask as nat, i + (index + 1) as nat) by {
                assert(is_on(before as nat, i + 1) == is_on(mask as nat, i + 1 + index as nat));
                assert(is_on(before as nat, i + 1) == is_on(rest as nat, i));
            }
        }
        index += 1;
    }
    assert(list@ =~= settings(cells@, mask as nat));
    list
}

fn row_matches(row: &Vec<bool>, tables: &Vec<OutputTable>, mask: usize) -> (same: bool)
    requires
        forall|i: int| 0 <= i < tables.len() ==> mask < (#[trigger] tables@[i]).values@.len(),
    ensures
        same == (row@ == expected_row(tables@, mask as nat)),
{
    let ghost wanted = expected_row(tables@, mask as nat);
    if row.len() != tables.len() {
        return false;
    }
    let mut index: usize = 0;
    while index < tables.len()
        invariant
            index <= tables.len(),
            row.len() == tables.len(),
            wanted == expected_row(tables@, mask as nat),
            forall|i: int| 0 <= i < tables.len() ==> mask < (#[trigger] tables@[i]).values@.len(),
            forall|i: int| 0 <= i < index ==> #[trigger] row@[i] == wanted[i],
        decreases tables.len() - index,
    {
        assert(mask < tables@[index as int].values@.len());
        if row[index] != tables[index].values[mask] {
            assert(row@[index as int] != wanted[index as int]);
            return false;
        }
        index += 1;
    }
    assert(row@ =~= wanted);
    true
}

fn count_masks(inputs: usize) -> (count: usize)
    requires
        combinations(inputs as nat) <= usize::MAX,
    ensures
        count == combinations(inputs as nat),
        count > 0,
{
    let mut count: usize = 1;
    let mut index: usize = 0;
    while index < inputs
        invariant
            index <= inputs,
            count == combinations(index as nat),
            count > 0,
            combinations(inputs as nat) <= usize::MAX,
        decreases inputs - index,
    {
        proof {
            combinations_grow((index + 1) as nat, inputs as nat);
        }
        count = 2 * count;
        index += 1;
    }
    count
}

proof fn combinations_grow(low: nat, high: nat)
    requires
        low <= high,
    ensures
        combinations(low) <= combinations(high),
        combinations(low) > 0,
    decreases high,
{
    if low < high {
        combinations_grow(low, (high - 1) as nat);
    } else if high > 0 {
        combinations_grow((low - 1) as nat, (high - 1) as nat);
    }
}

/// One check: what is seen at the outputs after settings, and whether it is
/// what is expected. Behind the fresh starts the simulation has to rest too.
fn run_check<F: Fn(&World3D, &Vec<Vec<(Position, bool)>>, &Vec<Position>, bool) -> Result<Vec<bool>, String>>(
    observe: &F,
    world: &World3D,
    steps: &Vec<Vec<(Position, bool)>>,
    outputs: &Vec<Position>,
    tables: &Vec<OutputTable>,
    mask: usize,
    rests: bool,
    Ghost(setup): Ghost<CheckSetup>,
    Ghost(index): Ghost<int>,
) -> (result: Result<bool, CheckError>)
    requires
        is_simulation(observe),
        forall|i: int| 0 <= i < tables.len() ==> mask < (#[trigger] tables@[i]).values@.len(),
        setup.world == *world,
        setup.outputs == outputs@,
        setup.tables == tables@,
        setting_views(steps@) == history(setup.inputs, check_masks(mask_count(setup), index)),
        check_masks(mask_count(setup), index).last() == mask,
        rests == (index >= mask_count(setup)),
    ensures
        match result {
            Ok(same) => if same {
                passes(observe, setup, index)
            } else {
                fails(observe, setup, index)
            },
            Err(error) => error matches CheckError::Simulation(text) && breaks(observe, setup, index, text),
        },
{
    let ghost wanted = history(setup.inputs, check_masks(mask_count(setup), index));
    let row = match observe(world, steps, outputs, false) {
        Err(error) => {
            assert(observes(observe, setup.world, wanted, setup.outputs, false, Err(error)));
            return Err(CheckError::Simulation(error));
        },
        Ok(row) => row,
    };
    assert(observes(observe, setup.world, wanted, setup.outputs, false, Ok(row)));
    if !row_matches(&row, tables, mask) {
        return Ok(false);
    }
    if rests {
        match observe(world, steps, outputs, true) {
            Err(error) => {
                assert(observes(observe, setup.world, wanted, setup.outputs, true, Err(error)));
                return Err(CheckError::Simulation(error));
            },
            Ok(after) => {
                assert(observes(observe, setup.world, wanted, setup.outputs, true, Ok(after)));
            },
        }
    }
    Ok(true)
}

fn run_checks<F: Fn(&World3D, &Vec<Vec<(Position, bool)>>, &Vec<Position>, bool) -> Result<Vec<bool>, String>>(
    table: &TruthTable,
    world: &World3D,
    input_cells: &Vec<Position>,
    output_cells: &Vec<Position>,
    observe: &F,
) -> (result: Result<bool, CheckError>)
    requires
        is_simulation(observe),
        combinations(input_cells@.len()) <= usize::MAX,
        forall|i: int|
            0 <= i < table.output_tables.len() ==> combinations(input_cells@.len()) <= (
            #[trigger] table.output_tables[i]).values@.len(),
    ensures
        is_verdict(
            observe,
            CheckSetup { world: *world, inputs: input_cells@, outputs: output_cells@, tables: table.output_tables@ },
            result,
        ),
{
    let ghost setup = CheckSetup {
        world: *world,
        inputs: input_cells@,
        outputs: output_cells@,
        tables: table.output_tables@,
    };
    let count: usize = count_masks(input_cells.len());
    let mut mask: usize = 0;
    while mask < count
        invariant
            mask <= count,
            count == mask_count(setup),
            setup == (CheckSetup { world: *world, inputs: input_cells@, outputs: output_cells@, tables: table.output_tables@ }),
            is_simulation(observe),
            forall|i: int|
                0 <= i < table.output_tables.len() ==> count <= (#[trigger] table.output_tables[i]).values@.len(),
            all_pass(observe, setup, mask as int),
        decreases count - mask,
    {
        let steps = vec![settings_of(input_cells, mask)];
        let ghost index = mask as int;
        proof {
            assert(steps@ =~= seq![steps@[0]]);
            assert(setting_views(steps@) =~= history(setup.inputs, check_masks(count as nat, index)));
        }
        match run_check(
            observe,
            world,
            &steps,
            output_cells,
            &table.output_tables,
            mask,
            false,
            Ghost(setup),
            Ghost(index),
        ) {
            Err(error) => {
                proof {
                    let text = error->Simulation_0;
                    assert(breaks(observe, setup, index, text));
                }
                return Err(error);
            },
            Ok(same) => {
                if !same {
                    assert(fails(observe, setup, index));
                    return Ok(false);
                }
            },
        }
        mask += 1;
    }
    let mut steps: Vec<Vec<(Position, bool)>> = Vec::new();
    let mut step: usize = 0;
    let mut downward = false;
    let mut mask: usize = 0;
    let ghost all = sweep(count as nat);
    assert(setting_views(steps@) =~= history(setup.inputs, all.take(0)));
    let mut left: usize = count;
    while left > 0 || !downward
        invariant
            count == mask_count(setup),
            count > 0,
            setup == (CheckSetup { world: *world, inputs: input_cells@, outputs: output_cells@, tables: table.output_tables@ }),
            all == sweep(count as nat),
            left <= count,
            step == count - left,
            is_simulation(observe),
            forall|i: int|
                0 <= i < table.output_tables.len() ==> count <= (#[trigger] table.output_tables[i]).values@.len(),
            setting_views(steps@) == history(setup.inputs, all.take(done(count as int, left as int, downward))),
            all_pass(observe, setup, count + done(count as int, left as int, downward)),
        decreases (if downward { 0int } else { 1int }), left,
    {
        if left == 0 {
            downward = true;
            left = count;
            step = 0;
            continue;
        }
        let ghost k = done(count as int, left as int, downward);
        mask = if downward {
            left - 1
        } else {
            step
        };
        let ghost index = count + k;
        let ghost before = steps@;
        steps.push(settings_of(input_cells, mask));
        proof {
            assert(all[k] == mask);
            assert(all.take(k + 1) =~= all.take(k).push(all[k]));
            assert(setting_views(steps@) =~= setting_views(before).push(settings(setup.inputs, mask as nat)));
            assert(history(setup.inputs, all.take(k + 1)) =~= history(setup.inputs, all.take(k)).push(
                settings(setup.inputs, mask as nat),
            ));
            assert(check_masks(count as nat, index) == all.take(k + 1));
        }
        match run_check(
            observe,
            world,
            &steps,
            output_cells,
            &table.output_tables,
            mask,
            true,
            Ghost(setup),
            Ghost(index),
        ) {
            Err(error) => {
                proof {
                    let text = error->Simulation_0;
                    assert(breaks(observe, setup, index, text));
                }
                return Err(error);
            },
            Ok(same) => {
                if !same {
                    assert(fails(observe, setup, index));
                    return Ok(false);
                }
            },
        }
        left -= 1;
        step += 1;
    }
    Ok(true)
}

/// Whether a table has a value for every combination of inputs.
pub open spec fn is_complete(table: TruthTable) -> bool {
    &&& combinations(table.input_names@.len()) <= usize::MAX
    &&& forall|i: int|
        0 <= i < table.output_tables.len() ==> combinations(table.input_names@.len()) <= (
        #[trigger] table.output_tables[i]).values@.len()
}

/// What checking a placed module against a table comes to.
pub open spec fn is_check<
    F: Fn(&World3D, &Vec<Vec<(Position, bool)>>, &Vec<Position>, bool) -> Result<Vec<bool>, String>,
>(table: &TruthTable, placed: PlacedWorld, observe: &F, result: Result<bool, CheckError>) -> bool {
    match cells_named(placed.inputs@, input_names(*table), table.input_names@.len()) {
        Err(missing) => result matches Err(CheckError::MissingInput(name)) && name@ == missing,
        Ok(input_cells) => match cells_named(placed.outputs@, output_names(*table), table.output_tables@.len()) {
            Err(missing) => result matches Err(CheckError::MissingOutput(name)) && name@ == missing,
            Ok(output_cells) => is_verdict(
                observe,
                CheckSetup {
                    world: placed.world,
                    inputs: input_cells,
                    outputs: output_cells,
                    tables: table.output_tables@,
                },
                result,
            ),
        },
    }
}

/// Whether a placed module computes a table. It has to do so from a fresh start
/// in every combination of inputs, and while inputs go up through all of them
/// and down again: a layout that powers up correctly may still fail to release.
pub fn candidate_matches_truth_table<
    F: Fn(&World3D, &Vec<Vec<(Position, bool)>>, &Vec<Position>, bool) -> Result<Vec<bool>, String>,
>(table: &TruthTable, placed: &PlacedWorld, observe: &F) -> (result: Result<bool, CheckError>)
    requires
        is_simulation(observe),
        is_complete(*table),
    ensures
        is_check(table, *placed, observe, result),
{
    let input_cells = match find_inputs(&placed.inputs, table) {
        Err(error) => return Err(error),
        Ok(cells) => cells,
    };
    let output_cells = match find_outputs(&placed.outputs, table) {
        Err(error) => return Err(error),
        Ok(cells) => cells,
    };
    run_checks(table, &placed.world, &input_cells, &output_cells, observe)
}

/// How many combinations of a sweep are behind.
spec fn done(count: int, left: int, downward: bool) -> int {
    count - left + if downward { count } else { 0 }
}

} // verus!
