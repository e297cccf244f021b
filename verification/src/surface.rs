//! Charts and atlases: programs on several canvases, or on one canvas whose
//! edges are glued together.

use vstd::prelude::*;

use crate::canvas::{Canvas, CanvasError, Coordinate, PictureFormat, readable, read_as};
use crate::interpreter::{ChartIndex, DP, Interpreter, InterpreterView, clockwise, neighbour};
use crate::palette::PietColour;

mod edges;

verus! {

/// One canvas of an atlas, with its index.
pub struct Chart {
    canvas: Canvas,
    index: ChartIndex,
}

impl Chart {
    pub closed spec fn spec_canvas(self) -> Canvas {
        self.canvas
    }

    pub closed spec fn spec_index(self) -> ChartIndex {
        self.index
    }

    /// Reads the canvas of a chart from the bytes of an image file.
    pub fn new(image: &[u8], format: PictureFormat, codel_size: u32, index: ChartIndex) -> (r: Result<Chart, CanvasError>)
        requires
            readable(image@, format, codel_size),
        ensures
            read_as(image@, format, codel_size, match r { Ok(c) => Ok(c.spec_canvas()), Err(e) => Err(e) }),
            r matches Ok(c) ==> c.spec_index() == index,
    {
        let canvas = Canvas::new(image, format, codel_size)?;
        Ok(Chart { canvas, index })
    }

    /// `new`, where its image is readable; `None` for an image that would
    /// give a canvas of no columns.
    pub fn checked_new(image: &[u8], format: PictureFormat, codel_size: u32, index: ChartIndex) -> (r: Option<Result<Chart, CanvasError>>)
        ensures
            r is None <==> !readable(image@, format, codel_size),
            r matches Some(res) ==> read_as(image@, format, codel_size, match res { Ok(c) => Ok(c.spec_canvas()), Err(e) => Err(e) })
                && (res matches Ok(c) ==> c.spec_index() == index),
    {
        if !Canvas::is_readable(image, format, codel_size) {
            return None;
        }
        Some(Chart::new(image, format, codel_size, index))
    }

    pub fn canvas(&self) -> (c: &Canvas)
        ensures
            *c == self.spec_canvas(),
    {
        &self.canvas
    }

    pub fn dimensions(&self) -> (d: (usize, usize))
        ensures
            d == self.spec_canvas().spec_dimensions(),
    {
        self.canvas.dimensions()
    }
}

/// How the edges of an atlas's chart are glued.
#[derive(Debug, Clone, Copy, PartialEq, Eq, Structural)]
pub enum Topology {
    /// Not at all: the edges block.
    Plane,
    /// Opposite edges glued, as on a torus.
    Torus,
    /// North and south glued with a reversal, east and west without.
    KleinBottle,
    /// Opposite edges glued with a reversal.
    ProjectivePlane,
}

/// Where leaving chart `index` over its edge, with the pointer `dp`, leads:
/// the chart to enter and whether it is entered reversed.
pub open spec fn spec_transition(topology: Topology, dp: DP, index: ChartIndex) -> Option<(ChartIndex, bool)> {
    match topology {
        Topology::Plane => None,
        Topology::Torus => if index > 0 { None } else { Some((0, false)) },
        Topology::KleinBottle => if index > 0 {
            None
        } else {
            match dp {
                DP::North | DP::South => Some((0, true)),
                DP::West | DP::East => Some((0, false)),
            }
        },
        Topology::ProjectivePlane => if index > 0 { None } else { Some((0, true)) },
    }
}

impl Topology {
    /// Where leaving chart `index` over its edge leads (see `spec_transition`).
    pub fn transition(&self, interpreter: &Interpreter, index: ChartIndex) -> (r: Option<(ChartIndex, bool)>)
        ensures
            r == spec_transition(*self, interpreter@.dp, index),
    {
        match self {
            Topology::Plane => Atlas::no_transitions(interpreter, index),
            Topology::Torus => Atlas::torus(interpreter, index),
            Topology::KleinBottle => Atlas::klein_bottle(interpreter, index),
            Topology::ProjectivePlane => Atlas::projective_plane(interpreter, index),
        }
    }
}

/// A Piet program on one or more charts whose edges are glued.
pub struct Atlas {
    charts: Vec<Chart>,
    transition_map: Topology,
}

/// Whether `coordinate` lies on the edge of `canvas` that `dp` points at.
pub open spec fn on_edge(canvas: Canvas, dp: DP, coordinate: Coordinate) -> bool {
    neighbour(canvas, dp, coordinate) is None
}

impl Atlas {
    pub closed spec fn spec_charts(self) -> Seq<Chart> {
        self.charts@
    }

    pub closed spec fn spec_topology(self) -> Topology {
        self.transition_map
    }

    /// The coordinate at which an interpreter in state `s` enters chart `to`
    /// from chart `from`: the position is mirrored across the chart, the
    /// height of `from` serving as its size in both directions; `None` when a
    /// chart is missing or the charts do not fit.
    pub open spec fn spec_transition_coord(self, s: InterpreterView, from: ChartIndex, to: ChartIndex, reverse: bool) -> Option<Coordinate> {
        if from < self.spec_charts().len() && to < self.spec_charts().len() {
            let (ow, oh) = self.spec_charts()[from as int].spec_canvas().spec_dimensions();
            let (nw, nh) = self.spec_charts()[to as int].spec_canvas().spec_dimensions();
            let (x, y) = s.coordinate;
            match s.dp {
                DP::North | DP::South => if (!ow) == nw {
                    None
                } else {
                    Some((if reverse { (oh - x - 1) as usize } else { x }, (oh - y - 1) as usize))
                },
                DP::West | DP::East => if (!oh) == nh {
                    None
                } else {
                    Some(((oh - x - 1) as usize, if reverse { (oh - y - 1) as usize } else { y }))
                },
            }
        } else {
            None
        }
    }

    /// The mirroring of `spec_transition_coord` stays within the numbers.
    pub open spec fn transition_coord_defined(self, s: InterpreterView, from: ChartIndex, to: ChartIndex, reverse: bool) -> bool {
        from < self.spec_charts().len() && to < self.spec_charts().len() ==> {
            let (ow, oh) = self.spec_charts()[from as int].spec_canvas().spec_dimensions();
            let (nw, nh) = self.spec_charts()[to as int].spec_canvas().spec_dimensions();
            let (x, y) = s.coordinate;
            match s.dp {
                DP::North | DP::South => (!ow) == nw || (y < oh && (reverse ==> x < oh)),
                DP::West | DP::East => (!oh) == nh || (x < oh && (reverse ==> y < oh)),
            }
        }
    }

    /// Leaving the chart over its edge from state `s` either is blocked or
    /// enters a codel, not black, of a chart that exists.
    pub open spec fn transition_safe(self, s: InterpreterView) -> bool {
        match spec_transition(self.spec_topology(), s.dp, s.chart) {
            None => true,
            Some((to, rev)) => {
                &&& self.transition_coord_defined(s, s.chart, to, rev)
                &&& (self.spec_transition_coord(s, s.chart, to, rev) matches Some(nc) ==> {
                    &&& to < self.spec_charts().len()
                    &&& self.spec_charts()[to as int].spec_canvas().in_bounds(nc)
                    &&& !(self.spec_charts()[to as int].spec_canvas().spec_codel(nc).spec_colour_name() == PietColour::Black)
                })
            },
        }
    }

    /// Every chart of the atlas is a well-formed canvas.
    pub open spec fn charts_wf(self) -> bool {
        forall|i: int| 0 <= i < self.spec_charts().len() ==> (#[trigger] self.spec_charts()[i]).spec_canvas().wf()
    }

    /// The topology of the atlas.
    pub fn transition_map(&self) -> (t: Topology)
        ensures
            t == self.spec_topology(),
    {
        self.transition_map
    }

    /// The number of charts.
    pub(crate) fn charts_len(&self) -> (n: usize)
        ensures
            n == self.spec_charts().len(),
    {
        self.charts.len()
    }

    /// Chart `index`, if there is one.
    pub fn chart(&self, index: ChartIndex) -> (r: Option<&Chart>)
        ensures
            match r {
                Some(c) => index < self.spec_charts().len() && *c == self.spec_charts()[index as int],
                None => index >= self.spec_charts().len(),
            },
    {
        let charts = &self.charts;
        if index >= charts.len() {
            return None;
        }
        Some(&charts[index])
    }

    /// The coordinate at which the interpreter enters chart `to_index` from
    /// chart `from_index` (see `spec_transition_coord`).
    pub fn transition_coord(&self, interpreter: &mut Interpreter, from_index: ChartIndex, to_index: ChartIndex, reverse: bool) -> (r: Option<Coordinate>)
        requires
            self.transition_coord_defined(old(interpreter)@, from_index, to_index, reverse),
        ensures
            r == self.spec_transition_coord(old(interpreter)@, from_index, to_index, reverse),
            final(interpreter)@ == old(interpreter)@,
    {
        let (old_chart_width, old_chart_height) = self.chart(from_index)?.dimensions();
        let (new_chart_width, new_chart_height) = self.chart(to_index)?.dimensions();
        let (mut x, mut y) = interpreter.current_coordinate();
        match interpreter.dp() {
            DP::North | DP::South => {
                if !old_chart_width == new_chart_width {
                    return None;
                }
                y = old_chart_height - y - 1;
                if reverse {
                    x = old_chart_height - x - 1;
                }
            },
            DP::West | DP::East => {
                if !old_chart_height == new_chart_height {
                    return None;
                }
                x = old_chart_height - x - 1;
                if reverse {
                    y = old_chart_height - y - 1;
                }
            },
        }
        Some((x, y))
    }

    fn no_transitions(_interpreter: &Interpreter, _index: ChartIndex) -> (r: Option<(ChartIndex, bool)>)
        ensures
            r is None,
    {
        None
    }

    fn torus(_interpreter: &Interpreter, index: ChartIndex) -> (r: Option<(ChartIndex, bool)>)
        ensures
            r == spec_transition(Topology::Torus, _interpreter@.dp, index),
    {
        if index > 0 {
            return None;
        }
        Some((0, false))
    }

    fn klein_bottle(interpreter: &Interpreter, index: ChartIndex) -> (r: Option<(ChartIndex, bool)>)
        ensures
            r == spec_transition(Topology::KleinBottle, interpreter@.dp, index),
    {
        if index > 0 {
            return None;
        }
        match interpreter.dp() {
            DP::North | DP::South => Some((0, true)),
            DP::West | DP::East => Some((0, false)),
        }
    }

    fn projective_plane(_interpreter: &Interpreter, index: ChartIndex) -> (r: Option<(ChartIndex, bool)>)
        ensures
            r == spec_transition(Topology::ProjectivePlane, _interpreter@.dp, index),
    {
        if index > 0 {
            return None;
        }
        Some((0, true))
    }

    fn from_image(image: &[u8], format: PictureFormat, codel_size: u32, transition_map: Topology) -> (r: Result<Atlas, CanvasError>)
        requires
            readable(image@, format, codel_size),
        ensures
            read_as(image@, format, codel_size, match r { Ok(a) => Ok(a.spec_charts()[0].spec_canvas()), Err(e) => Err(e) }),
            r matches Ok(a) ==> a.spec_charts().len() == 1 && a.spec_topology() == transition_map
                && a.spec_charts()[0].spec_index() == 0 && a.charts_wf(),
    {
        let chart = Chart::new(image, format, codel_size, 0)?;
        let mut charts: Vec<Chart> = Vec::new();
        charts.push(chart);
        Ok(Atlas { charts, transition_map })
    }

    /// An atlas of one chart, read from the bytes of an image file, whose
    /// edges block.
    pub fn new_canvas(image: &[u8], format: PictureFormat, codel_size: u32) -> (r: Result<Atlas, CanvasError>)
        requires
            readable(image@, format, codel_size),
        ensures
            read_as(image@, format, codel_size, match r { Ok(a) => Ok(a.spec_charts()[0].spec_canvas()), Err(e) => Err(e) }),
            r matches Ok(a) ==> a.spec_charts().len() == 1 && a.spec_topology() == Topology::Plane && a.charts_wf(),
    {
        Atlas::from_image(image, format, codel_size, Topology::Plane)
    }

    /// An atlas of one chart whose opposite edges are glued, as on a torus.
    pub fn new_torus(image: &[u8], format: PictureFormat, codel_size: u32) -> (r: Result<Atlas, CanvasError>)
        requires
            readable(image@, format, codel_size),
        ensures
            read_as(image@, format, codel_size, match r { Ok(a) => Ok(a.spec_charts()[0].spec_canvas()), Err(e) => Err(e) }),
            r matches Ok(a) ==> a.spec_charts().len() == 1 && a.spec_topology() == Topology::Torus && a.charts_wf(),
    {
        Atlas::from_image(image, format, codel_size, Topology::Torus)
    }

    /// An atlas of one chart glued as a Klein bottle.
    pub fn new_klein_bottle(image: &[u8], format: PictureFormat, codel_size: u32) -> (r: Result<Atlas, CanvasError>)
        requires
            readable(image@, format, codel_size),
        ensures
            read_as(image@, format, codel_size, match r { Ok(a) => Ok(a.spec_charts()[0].spec_canvas()), Err(e) => Err(e) }),
            r matches Ok(a) ==> a.spec_charts().len() == 1 && a.spec_topology() == Topology::KleinBottle && a.charts_wf(),
    {
        Atlas::from_image(image, format, codel_size, Topology::KleinBottle)
    }

    /// An atlas of one chart glued as a projective plane.
    pub fn new_projective_plane(image: &[u8], format: PictureFormat, codel_size: u32) -> (r: Result<Atlas, CanvasError>)
        requires
            readable(image@, format, codel_size),
        ensures
            read_as(image@, format, codel_size, match r { Ok(a) => Ok(a.spec_charts()[0].spec_canvas()), Err(e) => Err(e) }),
            r matches Ok(a) ==> a.spec_charts().len() == 1 && a.spec_topology() == Topology::ProjectivePlane && a.charts_wf(),
    {
        Atlas::from_image(image, format, codel_size, Topology::ProjectivePlane)
    }

    /// The atlas of one chart glued by `topology` (`new_canvas`, `new_torus`,
    /// `new_klein_bottle` or `new_projective_plane`), where its image is
    /// readable; `None` for an image that would give a canvas of no columns.
    pub fn checked_new(image: &[u8], format: PictureFormat, codel_size: u32, topology: Topology) -> (r: Option<Result<Atlas, CanvasError>>)
        ensures
            r is None <==> !readable(image@, format, codel_size),
            r matches Some(res) ==> read_as(image@, format, codel_size, match res { Ok(a) => Ok(a.spec_charts()[0].spec_canvas()), Err(e) => Err(e) })
                && (res matches Ok(a) ==> a.spec_charts().len() == 1 && a.spec_topology() == topology && a.charts_wf()),
    {
        if !Canvas::is_readable(image, format, codel_size) {
            return None;
        }
        Some(match topology {
            Topology::Plane => Atlas::new_canvas(image, format, codel_size),
            Topology::Torus => Atlas::new_torus(image, format, codel_size),
            Topology::KleinBottle => Atlas::new_klein_bottle(image, format, codel_size),
            Topology::ProjectivePlane => Atlas::new_projective_plane(image, format, codel_size),
        })
    }
}

/// Crossing a glued edge between two charts of the same size enters the
/// other chart mirrored: over the north or south edge the row `y` becomes
/// `h - 1 - y`, and the column `x` becomes `h - 1 - x` on a reversed
/// crossing and stays on one that is not; over the east or west edge the
/// same with rows and columns exchanged (`h` being the chart's height, as
/// the crossing measures both ways by it). Crossing back, in the opposite
/// direction, returns to where the first crossing started.
pub proof fn lemma_transition_mirrors(a: Atlas, s: InterpreterView, from: ChartIndex, to: ChartIndex, reverse: bool)
    requires
        from < a.spec_charts().len(),
        to < a.spec_charts().len(),
        a.spec_charts()[from as int].spec_canvas().spec_dimensions()
            == a.spec_charts()[to as int].spec_canvas().spec_dimensions(),
        s.coordinate.0 < a.spec_charts()[from as int].spec_canvas().spec_height(),
        s.coordinate.1 < a.spec_charts()[from as int].spec_canvas().spec_height(),
    ensures
        ({
            let h = a.spec_charts()[from as int].spec_canvas().spec_height();
            let (x, y) = s.coordinate;
            &&& a.spec_transition_coord(s, from, to, reverse) matches Some(c) && match s.dp {
                DP::North | DP::South => c.1 + y == h - 1 && (if reverse { c.0 + x == h - 1 } else { c.0 == x }),
                DP::East | DP::West => c.0 + x == h - 1 && (if reverse { c.1 + y == h - 1 } else { c.1 == y }),
            }
            &&& a.spec_transition_coord(s, from, to, reverse) matches Some(c) && a.spec_transition_coord(
                InterpreterView { coordinate: c, dp: clockwise(clockwise(s.dp)), chart: to, ..s }, to, from, reverse)
                == Some(s.coordinate)
        }),
{
    let (ow, oh) = a.spec_charts()[from as int].spec_canvas().spec_dimensions();
    assert(!ow != ow) by (bit_vector);
    assert(!oh != oh) by (bit_vector);
}

} // verus!
