//! What a viewer needs from the library: canvas coordinates and the number of turns.
use vstd::prelude::*;
use vstd::string::StringSliceAdditionalSpecFns;
use crate::model::{AREA, MAX_T};
use crate::parse_in::{fields_of, parse_input};
use crate::parse_out::{actions_of, parse_output};

verus! {

/// Side of the square canvas the arena is drawn on.
pub const CANVAS_SIZE: i64 = 500;

/// Arena units per canvas unit.
pub const CANVAS_SCALE: i64 = 400;

/// The canvas coordinate of the arena coordinate `x`: the arena's side
/// `[-AREA, AREA]` maps onto `[0, CANVAS_SIZE]`, `CANVAS_SCALE` arena units
/// to one canvas unit.
pub fn to_canvas(x: i64) -> (r: usize)
    requires
        -AREA <= x <= AREA,
    ensures
        r == (x + AREA) as int / CANVAS_SCALE as int,
        r <= CANVAS_SIZE as int,
{
    ((x + AREA) / CANVAS_SCALE) as usize
}

/// The number of turns a viewer can show for the instance text `input` and the
/// move sequence `output`: the number of actions, or 0 when either text does
/// not read.
pub fn get_max_turn(input: &str, output: &str) -> (r: usize)
    ensures
        fields_of(input.spec_bytes()) is Err ==> r == 0,
        fields_of(input.spec_bytes()) matches Ok(f) ==> (
        match actions_of(output.spec_bytes(), f.n) {
            Ok(acts) => r == if acts.len() <= MAX_T { acts.len() } else { 0 },
            Err(_) => r == 0,
        }),
{
    let inp = match parse_input(input) {
        Ok(inp) => inp,
        Err(_) => {
            return 0;
        },
    };
    match parse_output(&inp, output) {
        Ok(out) => out.out.len(),
        Err(_) => 0,
    }
}

} // verus!
