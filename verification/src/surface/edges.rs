//! Checking that a way over a glued edge of an atlas is safe to take: that it
//! is blocked or leads onto a codel, not black, of a chart.

use vstd::prelude::*;

use crate::interpreter::{Interpreter};
use crate::palette::PietColour;
use crate::surface::Atlas;

verus! {

impl Atlas {
    /// Whether leaving its chart over the edge is safe for the interpreter
    /// (see `transition_safe`).
    pub(crate) fn transition_is_safe(&self, interpreter: &Interpreter) -> (r: bool)
        requires
            self.charts_wf(),
            interpreter@.chart < self.spec_charts().len(),
            self.spec_charts()[interpreter@.chart as int].spec_canvas().in_bounds(interpreter@.coordinate),
        ensures
            r == self.transition_safe(interpreter@),
    {
        let i = interpreter.current_chart_index();
        let dp = interpreter.dp();
        let p = interpreter.current_coordinate();
        let canvas = self.chart(i).unwrap().canvas();
        let (to, reverse) = match self.transition_map().transition(interpreter, i) {
            Some(t) => t,
            None => {
                return true;
            },
        };
        let to_chart = match self.chart(to) {
            Some(c) => c,
            None => {
                return true;
            },
        };
        let (old_width, old_height) = canvas.dimensions();
        let (new_width, new_height) = to_chart.dimensions();
        let (x, y) = p;
        let defined = match dp {
            crate::interpreter::DP::North | crate::interpreter::DP::South =>
                !old_width == new_width || (y < old_height && (!reverse || x < old_height)),
            crate::interpreter::DP::West | crate::interpreter::DP::East =>
                !old_height == new_height || (x < old_height && (!reverse || y < old_height)),
        };
        if !defined {
            return false;
        }
        let mut probe = Interpreter::from_data(dp, interpreter.cc(), p, i, false);
        match self.transition_coord(&mut probe, i, to, reverse) {
            Some(nc) => {
                let to_canvas = to_chart.canvas();
                proof {
                    assert(to_canvas.wf());
                }
                nc.0 < new_width && nc.1 < new_height && !to_canvas.is_colour(nc, PietColour::Black)
            },
            None => true,
        }
    }
}

} // verus!
