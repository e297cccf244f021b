use vstd::prelude::*;

use crate::interpreter::{CC, DP};
use crate::palette::{PietColour, rgba, spec_rgba};
use image::ImageFormat;

mod fill;
mod paths;

pub use fill::{lemma_block_exits, lemma_block_is_region, lemma_extreme_unique};

pub use paths::{
    adjacent, is_path, joined, lemma_joined_back, lemma_joined_chain, lemma_joined_grow, lemma_joined_here,
    lemma_joined_closed, lemma_joined_step, steps_to_neighbour,
};

verus! {

/// A position on a canvas: `(x, y)` with `x` growing to the east and `y` to the south.
pub type Coordinate = (usize, usize);

/// The hue of a coloured Piet colour (magenta 0, blue 1, cyan 2, green 3,
/// yellow 4, red 5); `None` for white and black.
pub open spec fn hue_of(name: PietColour) -> Option<u8> {
    match name {
        PietColour::White | PietColour::Black => None,
        PietColour::LightRed | PietColour::Red | PietColour::DarkRed => Some(5),
        PietColour::LightYellow | PietColour::Yellow | PietColour::DarkYellow => Some(4),
        PietColour::LightGreen | PietColour::Green | PietColour::DarkGreen => Some(3),
        PietColour::LightCyan | PietColour::Cyan | PietColour::DarkCyan => Some(2),
        PietColour::LightBlue | PietColour::Blue | PietColour::DarkBlue => Some(1),
        PietColour::LightMagenta | PietColour::Magenta | PietColour::DarkMagenta => Some(0),
    }
}

/// The lightness of a coloured Piet colour (light 0, normal 1, dark 2); `None`
/// for white and black.
pub open spec fn light_of(name: PietColour) -> Option<u8> {
    match name {
        PietColour::White | PietColour::Black => None,
        PietColour::LightRed | PietColour::LightYellow | PietColour::LightGreen
        | PietColour::LightCyan | PietColour::LightBlue | PietColour::LightMagenta => Some(0),
        PietColour::Red | PietColour::Yellow | PietColour::Green | PietColour::Cyan
        | PietColour::Blue | PietColour::Magenta => Some(1),
        _ => Some(2),
    }
}

/// A coloured codel: its hue, lightness, the block it belongs to (once known)
/// and its colour's name.
#[derive(Debug, Clone, Copy)]
pub struct Colour {
    hue: u8,
    light: u8,
    block_index: Option<usize>,
    name: PietColour,
}

impl Colour {
    /// The hue and lightness stored agree with the colour's name, which is
    /// therefore neither white nor black.
    #[verifier::type_invariant]
    closed spec fn agrees(self) -> bool {
        &&& hue_of(self.name) == Some(self.hue)
        &&& light_of(self.name) == Some(self.light)
    }

    pub closed spec fn spec_hue(self) -> u8 {
        self.hue
    }

    pub closed spec fn spec_light(self) -> u8 {
        self.light
    }

    pub closed spec fn spec_block_index(self) -> Option<usize> {
        self.block_index
    }

    pub closed spec fn spec_name(self) -> PietColour {
        self.name
    }

    /// The same colour, assigned to block `index`.
    pub closed spec fn with_index(self, index: usize) -> Colour {
        Colour { block_index: Some(index), ..self }
    }

    /// A colour as `Codel::new` makes it: hue and lightness follow from the
    /// name, which is not white or black, and no block is assigned yet.
    pub closed spec fn spec_fresh(self) -> bool {
        &&& hue_of(self.name) == Some(self.hue)
        &&& light_of(self.name) == Some(self.light)
        &&& self.block_index is None
    }

    /// What `Codel::new` builds for a colour that is neither white nor black.
    pub closed spec fn spec_new(name: PietColour) -> Colour {
        Colour { hue: hue_of(name).unwrap(), light: light_of(name).unwrap(), block_index: None, name }
    }

    pub proof fn lemma_new(name: PietColour)
        requires
            hue_of(name) is Some,
        ensures
            Colour::spec_new(name).spec_fresh(),
            Colour::spec_new(name).spec_name() == name,
            Colour::spec_new(name).spec_hue() == hue_of(name).unwrap(),
            Colour::spec_new(name).spec_light() == light_of(name).unwrap(),
            Colour::spec_new(name).spec_block_index() is None,
    {
    }

    pub proof fn lemma_with_index(self, index: usize)
        ensures
            self.with_index(index).spec_hue() == self.spec_hue(),
            self.with_index(index).spec_light() == self.spec_light(),
            self.with_index(index).spec_name() == self.spec_name(),
            self.with_index(index).spec_block_index() == Some(index),
    {
    }

    fn hue(&self) -> (h: u8)
        ensures
            h == self.spec_hue(),
    {
        self.hue
    }

    fn light(&self) -> (l: u8)
        ensures
            l == self.spec_light(),
    {
        self.light
    }

    fn block_index(&self) -> (b: Option<usize>)
        ensures
            b == self.spec_block_index(),
    {
        self.block_index
    }

    /// The name of this colour, whose hue and lightness are those stored.
    pub fn name(&self) -> (n: PietColour)
        ensures
            n == self.spec_name(),
            hue_of(n) == Some(self.spec_hue()),
            light_of(n) == Some(self.spec_light()),
    {
        proof {
            use_type_invariant(self);
        }
        self.name
    }

    fn set_block_index(&mut self, new_index: usize)
        ensures
            *final(self) == old(self).with_index(new_index),
    {
        proof {
            use_type_invariant(&*self);
        }
        self.block_index = Some(new_index);
    }
}

/// One codel of a canvas: a colour, white or black.
#[derive(Debug, Clone, Copy)]
pub enum Codel {
    Colour(Colour),
    White,
    Black,
}

impl Codel {
    /// The codel that `new` makes of a colour name.
    pub open spec fn spec_new(name: PietColour) -> Codel {
        match name {
            PietColour::White => Codel::White,
            PietColour::Black => Codel::Black,
            _ => Codel::Colour(Colour::spec_new(name)),
        }
    }

    pub open spec fn spec_colour_name(self) -> PietColour {
        match self {
            Codel::White => PietColour::White,
            Codel::Black => PietColour::Black,
            Codel::Colour(c) => c.spec_name(),
        }
    }

    pub open spec fn spec_hue(self) -> Option<u8> {
        match self {
            Codel::Colour(c) => Some(c.spec_hue()),
            _ => None,
        }
    }

    pub open spec fn spec_light(self) -> Option<u8> {
        match self {
            Codel::Colour(c) => Some(c.spec_light()),
            _ => None,
        }
    }

    pub open spec fn spec_block_index(self) -> Option<usize> {
        match self {
            Codel::Colour(c) => c.spec_block_index(),
            _ => None,
        }
    }

    /// A coloured codel that no block holds yet.
    pub open spec fn spec_no_index(self) -> bool {
        self is Colour && self.spec_block_index() is None
    }

    /// The codel once block `index` holds it (white and black are never held).
    pub open spec fn spec_with_index(self, index: usize) -> Codel {
        match self {
            Codel::Colour(c) => Codel::Colour(c.with_index(index)),
            _ => self,
        }
    }

    /// A codel as `new` makes it.
    pub open spec fn spec_fresh(self) -> bool {
        match self {
            Codel::Colour(c) => c.spec_fresh(),
            _ => true,
        }
    }

    pub proof fn lemma_with_index(self, index: usize)
        ensures
            self.spec_with_index(index).spec_colour_name() == self.spec_colour_name(),
            self.spec_with_index(index).spec_hue() == self.spec_hue(),
            self.spec_with_index(index).spec_light() == self.spec_light(),
            self is Colour ==> self.spec_with_index(index).spec_block_index() == Some(index),
            self is Colour <==> self.spec_with_index(index) is Colour,
    {
        if let Codel::Colour(c) = self {
            c.lemma_with_index(index);
        }
    }

    pub fn new(colour_name: PietColour) -> (c: Codel)
        ensures
            c == Codel::spec_new(colour_name),
            c.spec_colour_name() == colour_name,
            c.spec_hue() == hue_of(colour_name),
            c.spec_light() == light_of(colour_name),
            c.spec_block_index() is None,
            c.spec_fresh(),
    {
        proof {
            if hue_of(colour_name) is Some {
                Colour::lemma_new(colour_name);
            }
        }
        match colour_name {
            PietColour::White => Codel::White,
            PietColour::Black => Codel::Black,
            PietColour::LightRed => Codel::Colour(
                Colour { hue: 5, light: 0, block_index: None, name: PietColour::LightRed },
            ),
            PietColour::Red => Codel::Colour(
                Colour { hue: 5, light: 1, block_index: None, name: PietColour::Red },
            ),
            PietColour::DarkRed => Codel::Colour(
                Colour { hue: 5, light: 2, block_index: None, name: PietColour::DarkRed },
            ),
            PietColour::LightYellow => Codel::Colour(
                Colour { hue: 4, light: 0, block_index: None, name: PietColour::LightYellow },
            ),
            PietColour::Yellow => Codel::Colour(
                Colour { hue: 4, light: 1, block_index: None, name: PietColour::Yellow },
            ),
            PietColour::DarkYellow => Codel::Colour(
                Colour { hue: 4, light: 2, block_index: None, name: PietColour::DarkYellow },
            ),
            PietColour::LightGreen => Codel::Colour(
                Colour { hue: 3, light: 0, block_index: None, name: PietColour::LightGreen },
            ),
            PietColour::Green => Codel::Colour(
                Colour { hue: 3, light: 1, block_index: None, name: PietColour::Green },
            ),
            PietColour::DarkGreen => Codel::Colour(
                Colour { hue: 3, light: 2, block_index: None, name: PietColour::DarkGreen },
            ),
            PietColour::LightCyan => Codel::Colour(
                Colour { hue: 2, light: 0, block_index: None, name: PietColour::LightCyan },
            ),
            PietColour::Cyan => Codel::Colour(
                Colour { hue: 2, light: 1, block_index: None, name: PietColour::Cyan },
            ),
            PietColour::DarkCyan => Codel::Colour(
                Colour { hue: 2, light: 2, block_index: None, name: PietColour::DarkCyan },
            ),
            PietColour::LightBlue => Codel::Colour(
                Colour { hue: 1, light: 0, block_index: None, name: PietColour::LightBlue },
            ),
            PietColour::Blue => Codel::Colour(
                Colour { hue: 1, light: 1, block_index: None, name: PietColour::Blue },
            ),
            PietColour::DarkBlue => Codel::Colour(
                Colour { hue: 1, light: 2, block_index: None, name: PietColour::DarkBlue },
            ),
            PietColour::LightMagenta => Codel::Colour(
                Colour { hue: 0, light: 0, block_index: None, name: PietColour::LightMagenta },
            ),
            PietColour::Magenta => Codel::Colour(
                Colour { hue: 0, light: 1, block_index: None, name: PietColour::Magenta },
            ),
            PietColour::DarkMagenta => Codel::Colour(
                Colour { hue: 0, light: 2, block_index: None, name: PietColour::DarkMagenta },
            ),
        }
    }

    /// The Piet colour that an RGBA value stands for: one of the twenty Piet
    /// colours when it matches one exactly, black otherwise.
    pub open spec fn spec_colour_of_rgba(colour: (u8, u8, u8, u8)) -> PietColour {
        if colour == spec_rgba(PietColour::Black) { PietColour::Black }
        else if colour == spec_rgba(PietColour::White) { PietColour::White }
        else if colour == spec_rgba(PietColour::LightRed) { PietColour::LightRed }
        else if colour == spec_rgba(PietColour::Red) { PietColour::Red }
        else if colour == spec_rgba(PietColour::DarkRed) { PietColour::DarkRed }
        else if colour == spec_rgba(PietColour::LightYellow) { PietColour::LightYellow }
        else if colour == spec_rgba(PietColour::Yellow) { PietColour::Yellow }
        else if colour == spec_rgba(PietColour::DarkYellow) { PietColour::DarkYellow }
        else if colour == spec_rgba(PietColour::LightGreen) { PietColour::LightGreen }
        else if colour == spec_rgba(PietColour::Green) { PietColour::Green }
        else if colour == spec_rgba(PietColour::DarkGreen) { PietColour::DarkGreen }
        else if colour == spec_rgba(PietColour::LightCyan) { PietColour::LightCyan }
        else if colour == spec_rgba(PietColour::Cyan) { PietColour::Cyan }
        else if colour == spec_rgba(PietColour::DarkCyan) { PietColour::DarkCyan }
        else if colour == spec_rgba(PietColour::LightBlue) { PietColour::LightBlue }
        else if colour == spec_rgba(PietColour::Blue) { PietColour::Blue }
        else if colour == spec_rgba(PietColour::DarkBlue) { PietColour::DarkBlue }
        else if colour == spec_rgba(PietColour::LightMagenta) { PietColour::LightMagenta }
        else if colour == spec_rgba(PietColour::Magenta) { PietColour::Magenta }
        else if colour == spec_rgba(PietColour::DarkMagenta) { PietColour::DarkMagenta }
        else { PietColour::Black }
    }

    /// Reading back the RGBA value that a Piet colour is painted with gives a
    /// codel of that colour.
    pub proof fn lemma_rgba_round_trip(name: PietColour)
        ensures
            Codel::spec_colour_of_rgba(spec_rgba(name)) == name,
            Codel::spec_new(Codel::spec_colour_of_rgba(spec_rgba(name))).spec_colour_name() == name,
    {
        match name {
            PietColour::White | PietColour::Black => {},
            _ => Colour::lemma_new(name),
        }
    }

    /// The codel that an RGBA pixel `[r, g, b, a]` is read as; a value that is
    /// none of the twenty Piet colours is read as black.
    pub fn from_rgba(colour: [u8; 4]) -> (c: Codel)
        ensures
            c == Codel::spec_new(Codel::spec_colour_of_rgba((colour[0], colour[1], colour[2], colour[3]))),
    {
        let name = if same_rgba(colour, rgba(PietColour::Black)) {
            PietColour::Black
        } else if same_rgba(colour, rgba(PietColour::White)) {
            PietColour::White
        } else if same_rgba(colour, rgba(PietColour::LightRed)) {
            PietColour::LightRed
        } else if same_rgba(colour, rgba(PietColour::Red)) {
            PietColour::Red
        } else if same_rgba(colour, rgba(PietColour::DarkRed)) {
            PietColour::DarkRed
        } else if same_rgba(colour, rgba(PietColour::LightYellow)) {
            PietColour::LightYellow
        } else if same_rgba(colour, rgba(PietColour::Yellow)) {
            PietColour::Yellow
        } else if same_rgba(colour, rgba(PietColour::DarkYellow)) {
            PietColour::DarkYellow
        } else if same_rgba(colour, rgba(PietColour::LightGreen)) {
            PietColour::LightGreen
        } else if same_rgba(colour, rgba(PietColour::Green)) {
            PietColour::Green
        } else if same_rgba(colour, rgba(PietColour::DarkGreen)) {
            PietColour::DarkGreen
        } else if same_rgba(colour, rgba(PietColour::LightCyan)) {
            PietColour::LightCyan
        } else if same_rgba(colour, rgba(PietColour::Cyan)) {
            PietColour::Cyan
        } else if same_rgba(colour, rgba(PietColour::DarkCyan)) {
            PietColour::DarkCyan
        } else if same_rgba(colour, rgba(PietColour::LightBlue)) {
            PietColour::LightBlue
        } else if same_rgba(colour, rgba(PietColour::Blue)) {
            PietColour::Blue
        } else if same_rgba(colour, rgba(PietColour::DarkBlue)) {
            PietColour::DarkBlue
        } else if same_rgba(colour, rgba(PietColour::LightMagenta)) {
            PietColour::LightMagenta
        } else if same_rgba(colour, rgba(PietColour::Magenta)) {
            PietColour::Magenta
        } else if same_rgba(colour, rgba(PietColour::DarkMagenta)) {
            PietColour::DarkMagenta
        } else {
            PietColour::Black
        };
        Codel::new(name)
    }

    /// The name of this codel's colour; the hue and lightness that the codel
    /// stores are those of that name.
    pub fn colour_name(&self) -> (n: PietColour)
        ensures
            n == self.spec_colour_name(),
            hue_of(n) == self.spec_hue(),
            light_of(n) == self.spec_light(),
    {
        match self {
            Codel::White => PietColour::White,
            Codel::Black => PietColour::Black,
            Codel::Colour(colour) => colour.name(),
        }
    }

    fn hue(&self) -> (h: Option<u8>)
        ensures
            h == self.spec_hue(),
    {
        match self {
            Codel::Colour(colour) => Some(colour.hue()),
            _ => None,
        }
    }

    fn light(&self) -> (l: Option<u8>)
        ensures
            l == self.spec_light(),
    {
        match self {
            Codel::Colour(colour) => Some(colour.light()),
            _ => None,
        }
    }

    pub fn block_index(&self) -> (b: Option<usize>)
        ensures
            b == self.spec_block_index(),
    {
        match self {
            Codel::Colour(colour) => colour.block_index(),
            _ => None,
        }
    }

    fn set_block_index(&mut self, new_index: usize)
        ensures
            *final(self) == old(self).spec_with_index(new_index),
    {
        match self {
            Codel::Colour(colour) => colour.set_block_index(new_index),
            _ => (),
        }
    }

    pub fn no_index(&self) -> (b: bool)
        ensures
            b == self.spec_no_index(),
    {
        match self {
            Codel::Colour(colour) => colour.block_index().is_none(),
            _ => false,
        }
    }

    /// Whether this codel has the colour `colour_name`.
    pub fn is_colour(&self, colour_name: PietColour) -> (b: bool)
        ensures
            b == (self.spec_colour_name() == colour_name),
    {
        match self {
            Codel::Black => colour_name == PietColour::Black,
            Codel::White => colour_name == PietColour::White,
            Codel::Colour(colour) => colour_name == colour.name(),
        }
    }

    /// Whether this codel is coloured: neither white nor black, with a hue
    /// and a lightness.
    pub fn is_any_colour(&self) -> (b: bool)
        ensures
            b == (self is Colour),
            b == (self.spec_colour_name() != PietColour::White && self.spec_colour_name() != PietColour::Black),
            b == self.spec_hue() is Some,
            b == self.spec_light() is Some,
    {
        match self {
            Codel::Colour(colour) => {
                proof {
                    use_type_invariant(colour);
                }
                true
            },
            _ => false,
        }
    }

    /// How many steps of the hue cycle lead from `codel`'s hue to this one's
    /// (`(self - codel) mod 6`); `None` unless both codels are coloured.
    pub fn hue_difference(&self, codel: Codel) -> (d: Option<u8>)
        ensures
            d == (match (self.spec_hue(), codel.spec_hue()) {
                (Some(h1), Some(h2)) => Some(((h1 - h2) % 6) as u8),
                _ => None,
            }),
    {
        match (self.hue(), codel.hue()) {
            (Some(hue1), Some(hue2)) => {
                let diff: i16 = hue1 as i16 - hue2 as i16;
                Some(euclid_rem(diff, 6))
            },
            _ => None,
        }
    }

    /// How many steps of the lightness cycle lead from this codel's lightness
    /// to `codel`'s (`(codel - self) mod 3`); `None` unless both are coloured.
    pub fn light_difference(&self, codel: Codel) -> (d: Option<u8>)
        ensures
            d == (match (self.spec_light(), codel.spec_light()) {
                (Some(l1), Some(l2)) => Some(((l2 - l1) % 3) as u8),
                _ => None,
            }),
    {
        match (self.light(), codel.light()) {
            (Some(light1), Some(light2)) => {
                let diff: i16 = light2 as i16 - light1 as i16;
                Some(euclid_rem(diff, 3))
            },
            _ => None,
        }
    }
}


/// How many codels a block holds.
pub type BlockSize = usize;
/// The position of a block in its canvas's list of blocks.
pub type BlockIndex = usize;

/// Whether `p` lies at least as far as `q` in the direction `dp`, ties broken
/// towards the side that `cc` picks (left or right of `dp`).
pub open spec fn at_least_as_far(dp: DP, cc: CC, p: Coordinate, q: Coordinate) -> bool {
    match (dp, cc) {
        (DP::North, CC::Left) => p.1 < q.1 || (p.1 == q.1 && p.0 <= q.0),
        (DP::North, CC::Right) => p.1 < q.1 || (p.1 == q.1 && p.0 >= q.0),
        (DP::East, CC::Left) => p.0 > q.0 || (p.0 == q.0 && p.1 <= q.1),
        (DP::East, CC::Right) => p.0 > q.0 || (p.0 == q.0 && p.1 >= q.1),
        (DP::South, CC::Left) => p.1 > q.1 || (p.1 == q.1 && p.0 >= q.0),
        (DP::South, CC::Right) => p.1 > q.1 || (p.1 == q.1 && p.0 <= q.0),
        (DP::West, CC::Left) => p.0 < q.0 || (p.0 == q.0 && p.1 >= q.1),
        (DP::West, CC::Right) => p.0 < q.0 || (p.0 == q.0 && p.1 <= q.1),
    }
}

/// `c` is the codel of `cells` that lies furthest in the direction `dp`,
/// picked by `cc` among those that lie equally far.
pub open spec fn is_extreme(cells: Set<Coordinate>, dp: DP, cc: CC, c: Coordinate) -> bool {
    &&& cells.contains(c)
    &&& forall|q: Coordinate| #[trigger] cells.contains(q) ==> at_least_as_far(dp, cc, c, q)
}

/// A block of codels: its index and size, and for each direction pointer and
/// codel chooser the codel from which the interpreter leaves it.
#[derive(Debug, Clone, Copy)]
pub struct CodelBlock {
    index: BlockIndex,
    northmost_west_coord: Coordinate,
    northmost_east_coord: Coordinate,
    eastmost_north_coord: Coordinate,
    eastmost_south_coord: Coordinate,
    southmost_east_coord: Coordinate,
    southmost_west_coord: Coordinate,
    westmost_south_coord: Coordinate,
    westmost_north_coord: Coordinate,
    block_size: BlockSize,
}

impl CodelBlock {
    pub closed spec fn spec_index(self) -> usize {
        self.index
    }

    pub closed spec fn spec_size(self) -> usize {
        self.block_size
    }

    /// The exit codel for a direction pointer and a codel chooser.
    pub closed spec fn spec_coord(self, dp: DP, cc: CC) -> Coordinate {
        match (dp, cc) {
            (DP::North, CC::Left) => self.northmost_west_coord,
            (DP::North, CC::Right) => self.northmost_east_coord,
            (DP::East, CC::Left) => self.eastmost_north_coord,
            (DP::East, CC::Right) => self.eastmost_south_coord,
            (DP::South, CC::Left) => self.southmost_east_coord,
            (DP::South, CC::Right) => self.southmost_west_coord,
            (DP::West, CC::Left) => self.westmost_south_coord,
            (DP::West, CC::Right) => self.westmost_north_coord,
        }
    }

    /// Each of the eight exit codels is the extreme codel of `cells` for its
    /// direction pointer and codel chooser.
    pub open spec fn spec_extremes_of(self, cells: Set<Coordinate>) -> bool {
        forall|dp: DP, cc: CC| is_extreme(cells, dp, cc, #[trigger] self.spec_coord(dp, cc))
    }

    /// The two exit codels for `dp` are the extremes of `cells`.
    pub open spec fn spec_side_of(self, cells: Set<Coordinate>, dp: DP) -> bool {
        &&& is_extreme(cells, dp, CC::Left, self.spec_coord(dp, CC::Left))
        &&& is_extreme(cells, dp, CC::Right, self.spec_coord(dp, CC::Right))
    }

    /// A block that holds no codel yet: every exit codel is the seed.
    pub open spec fn spec_fresh_at(self, seed: Coordinate) -> bool {
        forall|dp: DP, cc: CC| #[trigger] self.spec_coord(dp, cc) == seed
    }

    fn new(index: usize, coordinate: Coordinate) -> (b: CodelBlock)
        ensures
            b.spec_index() == index,
            b.spec_size() == 0,
            b.spec_fresh_at(coordinate),
    {
        CodelBlock {
            index,
            northmost_west_coord: coordinate,
            northmost_east_coord: coordinate,
            eastmost_north_coord: coordinate,
            eastmost_south_coord: coordinate,
            southmost_east_coord: coordinate,
            southmost_west_coord: coordinate,
            westmost_south_coord: coordinate,
            westmost_north_coord: coordinate,
            block_size: 0,
        }
    }

    /// The index of this block in its canvas.
    pub fn index(&self) -> (i: usize)
        ensures
            i == self.spec_index(),
    {
        self.index
    }

    /// The codel from which the interpreter leaves this block when the
    /// direction pointer is `dp` and the codel chooser is `cc`.
    pub fn get_coord(&self, dp: DP, cc: CC) -> (c: Coordinate)
        ensures
            c == self.spec_coord(dp, cc),
    {
        match (dp, cc) {
            (DP::North, CC::Left) => self.northmost_west_coord,
            (DP::North, CC::Right) => self.northmost_east_coord,
            (DP::East, CC::Left) => self.eastmost_north_coord,
            (DP::East, CC::Right) => self.eastmost_south_coord,
            (DP::South, CC::Left) => self.southmost_east_coord,
            (DP::South, CC::Right) => self.southmost_west_coord,
            (DP::West, CC::Left) => self.westmost_south_coord,
            (DP::West, CC::Right) => self.westmost_north_coord,
        }
    }

    pub fn northmost_west(&self) -> (c: Coordinate)
        ensures
            c == self.spec_coord(DP::North, CC::Left),
    {
        self.northmost_west_coord
    }

    pub fn northmost_east(&self) -> (c: Coordinate)
        ensures
            c == self.spec_coord(DP::North, CC::Right),
    {
        self.northmost_east_coord
    }

    pub fn eastmost_north(&self) -> (c: Coordinate)
        ensures
            c == self.spec_coord(DP::East, CC::Left),
    {
        self.eastmost_north_coord
    }

    pub fn eastmost_south(&self) -> (c: Coordinate)
        ensures
            c == self.spec_coord(DP::East, CC::Right),
    {
        self.eastmost_south_coord
    }

    pub fn southmost_east(&self) -> (c: Coordinate)
        ensures
            c == self.spec_coord(DP::South, CC::Left),
    {
        self.southmost_east_coord
    }

    pub fn southmost_west(&self) -> (c: Coordinate)
        ensures
            c == self.spec_coord(DP::South, CC::Right),
    {
        self.southmost_west_coord
    }

    pub fn westmost_south(&self) -> (c: Coordinate)
        ensures
            c == self.spec_coord(DP::West, CC::Left),
    {
        self.westmost_south_coord
    }

    pub fn westmost_north(&self) -> (c: Coordinate)
        ensures
            c == self.spec_coord(DP::West, CC::Right),
    {
        self.westmost_north_coord
    }

    /// The number of codels in this block.
    pub fn size(&self) -> (s: BlockSize)
        ensures
            s == self.spec_size(),
    {
        self.block_size
    }

    /// The block's fields other than the exit codels for `dp` are those of `other`.
    pub closed spec fn same_except(self, other: CodelBlock, dp: DP) -> bool {
        &&& self.index == other.index
        &&& self.block_size == other.block_size
        &&& forall|d: DP, cc: CC| d != dp ==> #[trigger] self.spec_coord(d, cc) == other.spec_coord(d, cc)
    }

    /// The exit codels for `dp`, where they equal those of `start`, inherit
    /// `start`'s standing as extremes or as a fresh block.
    proof fn lemma_side_from(self, start: CodelBlock, cells: Set<Coordinate>, coordinate: Coordinate, dp: DP)
        requires
            start.spec_extremes_of(cells) || (cells.is_empty() && start.spec_fresh_at(coordinate)),
            self.spec_coord(dp, CC::Left) == start.spec_coord(dp, CC::Left),
            self.spec_coord(dp, CC::Right) == start.spec_coord(dp, CC::Right),
        ensures
            self.spec_side_of(cells, dp) || (cells.is_empty() && self.spec_coord(dp, CC::Left) == coordinate
                && self.spec_coord(dp, CC::Right) == coordinate),
    {
        if start.spec_extremes_of(cells) {
            assert(is_extreme(cells, dp, CC::Left, start.spec_coord(dp, CC::Left)));
            assert(is_extreme(cells, dp, CC::Right, start.spec_coord(dp, CC::Right)));
        } else {
            assert(start.spec_coord(dp, CC::Left) == coordinate);
            assert(start.spec_coord(dp, CC::Right) == coordinate);
        }
    }

    fn update_northmost(&mut self, Ghost(cells): Ghost<Set<Coordinate>>, coordinate: Coordinate)
        requires
            old(self).spec_side_of(cells, DP::North) || (cells.is_empty() && old(self).spec_coord(DP::North, CC::Left) == coordinate
                && old(self).spec_coord(DP::North, CC::Right) == coordinate),
        ensures
            final(self).spec_side_of(cells.insert(coordinate), DP::North),
            final(self).same_except(*old(self), DP::North),
    {
        let (nwx, nwy) = self.get_coord(DP::North, CC::Left);
        let (nex, _) = self.get_coord(DP::North, CC::Right);
        let (x, y) = coordinate;
        if y > nwy {
        } else if y < nwy {
            self.northmost_west_coord = coordinate;
            self.northmost_east_coord = coordinate;
        } else if x < nwx {
            self.northmost_west_coord = coordinate;
        } else if x > nex {
            self.northmost_east_coord = coordinate;
        }
        assert(self.spec_side_of(cells.insert(coordinate), DP::North));
    }

    fn update_eastmost(&mut self, Ghost(cells): Ghost<Set<Coordinate>>, coordinate: Coordinate)
        requires
            old(self).spec_side_of(cells, DP::East) || (cells.is_empty() && old(self).spec_coord(DP::East, CC::Left) == coordinate
                && old(self).spec_coord(DP::East, CC::Right) == coordinate),
        ensures
            final(self).spec_side_of(cells.insert(coordinate), DP::East),
            final(self).same_except(*old(self), DP::East),
    {
        let (enx, eny) = self.get_coord(DP::East, CC::Left);
        let (_, esy) = self.get_coord(DP::East, CC::Right);
        let (x, y) = coordinate;
        if x < enx {
        } else if x > enx {
            self.eastmost_north_coord = coordinate;
            self.eastmost_south_coord = coordinate;
        } else if y < eny {
            self.eastmost_north_coord = coordinate;
        } else if y > esy {
            self.eastmost_south_coord = coordinate;
        }
        assert(self.spec_side_of(cells.insert(coordinate), DP::East));
    }

    fn update_southmost(&mut self, Ghost(cells): Ghost<Set<Coordinate>>, coordinate: Coordinate)
        requires
            old(self).spec_side_of(cells, DP::South) || (cells.is_empty() && old(self).spec_coord(DP::South, CC::Left) == coordinate
                && old(self).spec_coord(DP::South, CC::Right) == coordinate),
        ensures
            final(self).spec_side_of(cells.insert(coordinate), DP::South),
            final(self).same_except(*old(self), DP::South),
    {
        let (swx, swy) = self.get_coord(DP::South, CC::Right);
        let (sex, _) = self.get_coord(DP::South, CC::Left);
        let (x, y) = coordinate;
        if y < swy {
        } else if y > swy {
            self.southmost_west_coord = coordinate;
            self.southmost_east_coord = coordinate;
        } else if x < swx {
            self.southmost_west_coord = coordinate;
        } else if x > sex {
            self.southmost_east_coord = coordinate;
        }
        assert(self.spec_side_of(cells.insert(coordinate), DP::South));
    }

    fn update_westmost(&mut self, Ghost(cells): Ghost<Set<Coordinate>>, coordinate: Coordinate)
        requires
            old(self).spec_side_of(cells, DP::West) || (cells.is_empty() && old(self).spec_coord(DP::West, CC::Left) == coordinate
                && old(self).spec_coord(DP::West, CC::Right) == coordinate),
        ensures
            final(self).spec_side_of(cells.insert(coordinate), DP::West),
            final(self).same_except(*old(self), DP::West),
    {
        let (wnx, wny) = self.get_coord(DP::West, CC::Right);
        let (_, wsy) = self.get_coord(DP::West, CC::Left);
        let (x, y) = coordinate;
        if x > wnx {
        } else if x < wnx {
            self.westmost_north_coord = coordinate;
            self.westmost_south_coord = coordinate;
        } else if y < wny {
            self.westmost_north_coord = coordinate;
        } else if y > wsy {
            self.westmost_south_coord = coordinate;
        }
        assert(self.spec_side_of(cells.insert(coordinate), DP::West));
    }

    /// Adds a codel that the block did not hold: the size grows by one and the
    /// exit codels stay the extremes of the block's codels.
    fn add_coordinate(&mut self, Ghost(cells): Ghost<Set<Coordinate>>, coordinate: Coordinate)
        requires
            old(self).spec_extremes_of(cells) || (cells.is_empty() && old(self).spec_fresh_at(coordinate)),
            old(self).spec_size() < usize::MAX,
        ensures
            final(self).spec_extremes_of(cells.insert(coordinate)),
            final(self).spec_size() == old(self).spec_size() + 1,
            final(self).spec_index() == old(self).spec_index(),
    {
        let ghost start = *self;
        self.block_size = self.block_size + 1;
        proof {
            assert forall|dp: DP, cc: CC| #[trigger] self.spec_coord(dp, cc) == start.spec_coord(dp, cc) by {
                match dp { DP::North => {}, DP::East => {}, DP::South => {}, DP::West => {} }
            }
            self.lemma_side_from(start, cells, coordinate, DP::North);
        }
        self.update_northmost(Ghost(cells), coordinate);
        let ghost b1 = *self;
        proof { self.lemma_side_from(start, cells, coordinate, DP::East); }
        self.update_eastmost(Ghost(cells), coordinate);
        let ghost b2 = *self;
        proof {
            assert(self.spec_coord(DP::South, CC::Left) == b1.spec_coord(DP::South, CC::Left));
            assert(self.spec_coord(DP::South, CC::Right) == b1.spec_coord(DP::South, CC::Right));
            self.lemma_side_from(start, cells, coordinate, DP::South);
        }
        self.update_southmost(Ghost(cells), coordinate);
        let ghost b3 = *self;
        proof {
            assert(self.spec_coord(DP::West, CC::Left) == b2.spec_coord(DP::West, CC::Left));
            assert(self.spec_coord(DP::West, CC::Right) == b2.spec_coord(DP::West, CC::Right));
            assert(b2.spec_coord(DP::West, CC::Left) == b1.spec_coord(DP::West, CC::Left));
            assert(b2.spec_coord(DP::West, CC::Right) == b1.spec_coord(DP::West, CC::Right));
            self.lemma_side_from(start, cells, coordinate, DP::West);
        }
        self.update_westmost(Ghost(cells), coordinate);
        proof {
            let s2 = cells.insert(coordinate);
            assert(self.spec_side_of(s2, DP::West));
            assert(b3.spec_side_of(s2, DP::South));
            assert(b2.spec_side_of(s2, DP::East));
            assert(b1.spec_side_of(s2, DP::North));
            assert forall|dp: DP, cc: CC| is_extreme(s2, dp, cc, #[trigger] self.spec_coord(dp, cc)) by {
                assert(self.same_except(b3, DP::West));
                assert(b3.same_except(b2, DP::South));
                assert(b2.same_except(b1, DP::East));
                match dp {
                    DP::North => {
                        assert(self.spec_coord(dp, cc) == b1.spec_coord(dp, cc));
                        match cc { CC::Left => {}, CC::Right => {} }
                    },
                    DP::East => {
                        assert(self.spec_coord(dp, cc) == b2.spec_coord(dp, cc));
                        match cc { CC::Left => {}, CC::Right => {} }
                    },
                    DP::South => {
                        assert(self.spec_coord(dp, cc) == b3.spec_coord(dp, cc));
                        match cc { CC::Left => {}, CC::Right => {} }
                    },
                    DP::West => {
                        match cc { CC::Left => {}, CC::Right => {} }
                    },
                }
            }
        }
    }
}


/// The index in a column-major grid of height `h` at which the codel at `c` is kept.
pub open spec fn flat(h: int, c: Coordinate) -> int {
    c.0 * h + c.1
}

/// Whether `c` lies on a grid of width `w` and height `h`.
pub open spec fn on_grid(w: int, h: int, c: Coordinate) -> bool {
    c.0 < w && c.1 < h
}

/// The coordinates of the codels of a column-major grid of height `h` that
/// block `b` holds.
pub open spec fn cells_in(codels: Seq<Codel>, w: int, h: int, b: usize) -> Set<Coordinate> {
    Set::new(|c: Coordinate| on_grid(w, h, c) && codels[flat(h, c)].spec_block_index() == Some(b))
}

/// Hue and lightness agree with the colour's name.
pub open spec fn consistent(c: Codel) -> bool {
    match c {
        Codel::Colour(col) => hue_of(col.spec_name()) == Some(col.spec_hue())
            && light_of(col.spec_name()) == Some(col.spec_light()),
        _ => true,
    }
}

/// The error in which decoding an image with the `image` crate may end.
#[verifier::external_type_specification]
#[verifier::external_body]
pub struct ExImageError(image::ImageError);


/// The number of codels of `s` that block `b` holds.
pub open spec fn count_in(s: Seq<Codel>, b: usize) -> nat
    decreases s.len(),
{
    if s.len() == 0 {
        0
    } else {
        count_in(s.drop_last(), b) + if s.last().spec_block_index() == Some(b) { 1nat } else { 0nat }
    }
}

/// The number of coloured codels of `s` that no block holds yet.
pub open spec fn count_free(s: Seq<Codel>) -> nat
    decreases s.len(),
{
    if s.len() == 0 {
        0
    } else {
        count_free(s.drop_last()) + if s.last().spec_no_index() { 1nat } else { 0nat }
    }
}

/// `new` is `old` with some coloured codels that no block held given to block `b`.
pub open spec fn grows(old: Seq<Codel>, new: Seq<Codel>, b: usize) -> bool {
    &&& old.len() == new.len()
    &&& forall|i: int| 0 <= i < old.len() ==> (#[trigger] new[i] == old[i]
            || (old[i].spec_no_index() && new[i] == old[i].spec_with_index(b)))
}

/// The reasons for which a canvas cannot be made of an image.
#[derive(Debug)]
pub enum CanvasError {
    /// The image could not be decoded.
    Image(image::ImageError),
    /// The image's width or height is not a multiple of the codel size.
    CodelSizeMismatch,
}

/// A Piet program: a grid of codels and the blocks that they form.
#[derive(Debug, Clone)]
pub struct Canvas {
    /// The codels, column by column: the codel at `(x, y)` is at `x * height + y`.
    codels: Vec<Codel>,
    blocks: Vec<CodelBlock>,
    width: usize,
    height: usize,
}

impl Canvas {
    pub closed spec fn spec_dimensions(self) -> (usize, usize) {
        (self.width, self.height)
    }

    pub closed spec fn spec_codels(self) -> Seq<Codel> {
        self.codels@
    }

    pub closed spec fn spec_blocks(self) -> Seq<CodelBlock> {
        self.blocks@
    }

    pub open spec fn spec_width(self) -> int {
        self.spec_dimensions().0 as int
    }

    pub open spec fn spec_height(self) -> int {
        self.spec_dimensions().1 as int
    }

    pub open spec fn in_bounds(self, c: Coordinate) -> bool {
        on_grid(self.spec_width(), self.spec_height(), c)
    }

    /// The codel at `c`.
    pub open spec fn spec_codel(self, c: Coordinate) -> Codel {
        self.spec_codels()[flat(self.spec_height(), c)]
    }

    /// The coordinates of the codels that block `b` holds.
    pub open spec fn cells(self, b: usize) -> Set<Coordinate> {
        cells_in(self.spec_codels(), self.spec_width(), self.spec_height(), b)
    }

    /// The grid has a positive width and one codel per coordinate, each with
    /// hue and lightness that agree with its colour.
    pub open spec fn shape_ok(self) -> bool {
        &&& self.spec_width() > 0
        &&& self.spec_codels().len() == self.spec_width() * self.spec_height()
        &&& forall|i: int| 0 <= i < self.spec_codels().len() ==> #[trigger] consistent(self.spec_codels()[i])
    }

    /// Every block index that a codel carries is below `limit`.
    pub open spec fn indices_below(self, limit: int) -> bool {
        forall|i: int| 0 <= i < self.spec_codels().len() ==>
            (#[trigger] self.spec_codels()[i].spec_block_index() matches Some(b) ==> b < limit)
    }

    /// Block `b` is well formed: it knows its index, its size is the number of
    /// codels that it holds, it holds at least one codel, all of one colour,
    /// and its exit codels are the extremes of those codels.
    pub open spec fn block_ok(self, b: int) -> bool {
        let blk = self.spec_blocks()[b];
        &&& blk.spec_index() == b
        &&& blk.spec_size() == count_in(self.spec_codels(), b as usize)
        &&& blk.spec_extremes_of(self.cells(b as usize))
        &&& forall|c: Coordinate| #[trigger] self.cells(b as usize).contains(c) ==>
                self.spec_codel(c).spec_colour_name() == self.spec_codel(blk.spec_coord(DP::North, CC::Left)).spec_colour_name()
    }

    /// Any two codels of block `b` are joined by a path through codels of
    /// the block.
    pub open spec fn block_connected(self, b: usize) -> bool {
        forall|c: Coordinate, d: Coordinate| #[trigger] self.cells(b).contains(c) && #[trigger] self.cells(b).contains(d)
            ==> joined(self.cells(b), c, d)
    }

    /// Every block is connected.
    pub open spec fn blocks_connected(self) -> bool {
        forall|b: int| 0 <= b < self.spec_blocks().len() ==> #[trigger] self.block_connected(b as usize)
    }

    /// A canvas as its constructors leave it: every coloured codel belongs to
    /// one of the blocks, and every block is well formed.
    pub open spec fn wf(self) -> bool {
        &&& self.shape_ok()
        &&& self.indices_below(self.spec_blocks().len() as int)
        &&& forall|b: int| 0 <= b < self.spec_blocks().len() ==> #[trigger] self.block_ok(b)
        &&& forall|i: int| 0 <= i < self.spec_codels().len() ==> !(#[trigger] self.spec_codels()[i].spec_no_index())
    }

    /// The width and height, in codels, of an image of `width` by `height`
    /// pixels, or an error when a dimension is not a multiple of the codel size.
    fn scaled_dimensions(width: u32, height: u32, codel_size: u32) -> (r: Result<(u32, u32), CanvasError>)
        requires
            !(codel_size == 0 && width == 0 && height == 0),
        ensures
            r is Err <==> !(multiple_of(width as int, codel_size as int) && multiple_of(height as int, codel_size as int)),
            r matches Err(e) ==> e is CodelSizeMismatch,
            r matches Ok((w, h)) ==> codel_size > 0 && w == width / codel_size && h == height / codel_size,
    {
        let width_fits = if codel_size == 0 { width == 0 } else { width % codel_size == 0 };
        let height_fits = if codel_size == 0 { height == 0 } else { height % codel_size == 0 };
        if !width_fits || !height_fits {
            return Err(CanvasError::CodelSizeMismatch);
        }
        Ok((width / codel_size, height / codel_size))
    }

    /// Reads the codels of an image: the colour of each codel is that of its
    /// north-west pixel. The codels come column by column.
    fn make_codels(width: u32, height: u32, pixels: &Vec<u8>, codel_size: u32)
        -> (r: Result<(Vec<Codel>, usize, usize), CanvasError>)
        requires
            pixels@.len() >= 4 * width * height,
            !(codel_size == 0 && width == 0 && height == 0),
        ensures
            r is Err <==> !(multiple_of(width as int, codel_size as int) && multiple_of(height as int, codel_size as int)),
            r matches Err(e) ==> e is CodelSizeMismatch,
            r matches Ok((codels, w, h)) ==> {
                &&& codel_size > 0
                &&& w == width / codel_size
                &&& h == height / codel_size
                &&& codels@.len() == w * h
                &&& forall|c: Coordinate| on_grid(w as int, h as int, c) ==>
                    #[trigger] codels@[flat(h as int, c)] == Codel::spec_new(codel_colour(pixels@, width as int, codel_size as int, c))
            },
    {
        let (scaled_width, scaled_height) = Canvas::scaled_dimensions(width, height, codel_size)?;
        let ghost sw = scaled_width as int;
        let ghost sh = scaled_height as int;
        let mut codels: Vec<Codel> = Vec::new();
        let mut i: u32 = 0;
        proof {
            vstd::arithmetic::div_mod::lemma_fundamental_div_mod(width as int, codel_size as int);
            vstd::arithmetic::div_mod::lemma_fundamental_div_mod(height as int, codel_size as int);
            assert(sw * sh <= width * height) by (nonlinear_arith)
                requires sw * codel_size <= width, sh * codel_size <= height, codel_size >= 1, sw >= 0, sh >= 0;
            assert(pixels.len() == pixels@.len());
        }
        while i < scaled_width
            invariant
                codel_size > 0,
                sw == width / codel_size,
                sh == height / codel_size,
                scaled_width == sw,
                scaled_height == sh,
                sw * sh <= width * height,
                pixels@.len() >= 4 * width * height,
                pixels@.len() <= usize::MAX,
                0 <= i <= sw,
                codels@.len() == i * sh,
                forall|c: Coordinate| c.0 < i && c.1 < sh ==>
                    #[trigger] codels@[flat(sh, c)] == Codel::spec_new(codel_colour(pixels@, width as int, codel_size as int, c)),
            decreases sw - i,
        {
            let mut j: u32 = 0;
            while j < scaled_height
                invariant
                    codel_size > 0,
                    sw == width / codel_size,
                    sh == height / codel_size,
                    scaled_width == sw,
                    scaled_height == sh,
                    sw * sh <= width * height,
                    pixels@.len() >= 4 * width * height,
                    pixels@.len() <= usize::MAX,
                    0 <= i < sw,
                    0 <= j <= sh,
                    codels@.len() == i * sh + j,
                    forall|c: Coordinate| (c.0 < i && c.1 < sh) || (c.0 == i && c.1 < j) ==>
                        #[trigger] codels@[flat(sh, c)] == Codel::spec_new(codel_colour(pixels@, width as int, codel_size as int, c)),
                decreases sh - j,
            {
                proof {
                    lemma_scaled_in_range(i as int, codel_size as int, width as int);
                    lemma_scaled_in_range(j as int, codel_size as int, height as int);
                }
                let x: u32 = i * codel_size;
                let y: u32 = j * codel_size;
                proof {
                    lemma_pixel_in_range(width as int, height as int, x as int, y as int);
                }
                let k: usize = ((y as usize) * (width as usize) + (x as usize)) * 4;
                let colour: [u8; 4] = [pixels[k], pixels[k + 1], pixels[k + 2], pixels[k + 3]];
                let codel = Codel::from_rgba(colour);
                let ghost before = codels@;
                codels.push(codel);
                proof {
                    assert(colour[0] == pixels@[k as int]);
                    assert forall|c: Coordinate| (c.0 < i && c.1 < sh) || (c.0 == i && c.1 < j + 1) implies
                        #[trigger] codels@[flat(sh, c)] == Codel::spec_new(codel_colour(pixels@, width as int, codel_size as int, c)) by {
                        if c.0 == i && c.1 == j {
                            assert(flat(sh, c) == i * sh + j);
                        } else {
                            assert(flat(sh, c) < i * sh + j) by (nonlinear_arith)
                                requires (c.0 < i && c.1 < sh) || (c.0 == i && c.1 < j), c.1 >= 0;
                            assert(codels@[flat(sh, c)] == before[flat(sh, c)]);
                        }
                    }
                }
                j = j + 1;
            }
            proof {
                assert((i + 1) * sh == i * sh + sh) by (nonlinear_arith);
            }
            i = i + 1;
        }
        Ok((codels, scaled_width as usize, scaled_height as usize))
    }

    /// A canvas of the codels `codels`, kept column by column, with no blocks yet.
    fn from_codels(codels: Vec<Codel>, width: usize, height: usize) -> (c: Canvas)
        requires
            codels@.len() == width * height,
            width > 0,
        ensures
            c.spec_codels() == codels@,
            c.spec_dimensions() == (width, height),
            c.spec_blocks().len() == 0,
    {
        let blocks: Vec<CodelBlock> = Vec::new();
        Canvas { codels, blocks, width, height }
    }

    /// The canvas of an image of `width` by `height` pixels given as RGBA bytes,
    /// row by row, with codels of `codel_size` pixels: its dimensions are the
    /// image's divided by the codel size, each codel has the colour of its
    /// north-west pixel (black where that is no Piet colour), and its blocks are
    /// the connected regions of one colour (see `lemma_block_is_region`),
    /// numbered in the order of their first codels, column by column. An
    /// error when a dimension is not a multiple of the codel size.
    pub fn from_rgba(width: u32, height: u32, pixels: &Vec<u8>, codel_size: u32) -> (r: Result<Canvas, CanvasError>)
        requires
            pixels@.len() >= 4 * width * height,
            width > 0 || !multiple_of(height as int, codel_size as int),
        ensures
            r is Err <==> !(multiple_of(width as int, codel_size as int) && multiple_of(height as int, codel_size as int)),
            r matches Err(e) ==> e is CodelSizeMismatch,
            r matches Ok(canvas) ==> {
                &&& canvas.wf()
                &&& canvas.blocks_connected()
                &&& canvas.blocks_maximal()
                &&& canvas.numbered_in_order()
                &&& canvas.spec_width() == width / codel_size
                &&& canvas.spec_height() == height / codel_size
                &&& forall|c: Coordinate| canvas.in_bounds(c) ==>
                    (#[trigger] canvas.spec_codel(c)).spec_colour_name() == codel_colour(pixels@, width as int, codel_size as int, c)
            },
    {
        let (codels, scaled_width, scaled_height) = Canvas::make_codels(width, height, pixels, codel_size)?;
        proof {
            vstd::arithmetic::div_mod::lemma_fundamental_div_mod(width as int, codel_size as int);
            assert(width > 0);
            let wi = width as int;
            let ci = codel_size as int;
            let q = wi / ci;
            assert(q > 0) by (nonlinear_arith)
                requires wi == ci * q + wi % ci, wi % ci == 0, wi > 0, ci > 0;
            assert(scaled_width > 0);
            assert forall|k: int| 0 <= k < codels@.len() implies (#[trigger] codels@[k]).spec_block_index() is None
                && consistent(codels@[k]) by {
                let c: Coordinate = ((k / scaled_height as int) as usize, (k % scaled_height as int) as usize);
                vstd::arithmetic::div_mod::lemma_fundamental_div_mod(k, scaled_height as int);
                assert(k / (scaled_height as int) < scaled_width) by (nonlinear_arith)
                    requires k < scaled_width * scaled_height, k == scaled_height * (k / (scaled_height as int)) + k % (scaled_height as int),
                        0 <= k % (scaled_height as int), scaled_height > 0;
                assert(flat(scaled_height as int, c) == k) by {
                    let hh = scaled_height as int;
                    assert((k / hh) * hh + k % hh == k) by (nonlinear_arith)
                        requires k == hh * (k / hh) + k % hh;
                    assert(c.0 == k / hh);
                    assert(c.1 == k % hh);
                }
                let name = codel_colour(pixels@, width as int, codel_size as int, c);
                if hue_of(name) is Some {
                    Colour::lemma_new(name);
                }
            }
        }
        let mut canvas = Canvas::from_codels(codels, scaled_width, scaled_height);
        canvas.create_blocks();
        proof {
            assert forall|c: Coordinate| canvas.in_bounds(c) implies
                (#[trigger] canvas.spec_codel(c)).spec_colour_name() == codel_colour(pixels@, width as int, codel_size as int, c) by {
                lemma_flat_in_range(scaled_width as int, scaled_height as int, c);
                let name = codel_colour(pixels@, width as int, codel_size as int, c);
                if hue_of(name) is Some {
                    Colour::lemma_new(name);
                }
            }
        }
        Ok(canvas)
    }

    /// Reads a canvas from the bytes of an image file, with codels of
    /// `codel_size` pixels.
    pub fn new(image: &[u8], format: PictureFormat, codel_size: u32) -> (r: Result<Canvas, CanvasError>)
        requires
            readable(image@, format, codel_size),
        ensures
            read_as(image@, format, codel_size, r),
    {
        let (width, height, pixels) = match decode_rgba(image, format) {
            Ok(decoded) => decoded,
            Err(e) => return Err(CanvasError::Image(e)),
        };
        Canvas::from_rgba(width, height, &pixels, codel_size)
    }

    /// `new`, where its image is readable; `None` for an image that would
    /// give a canvas of no columns.
    pub fn checked_new(image: &[u8], format: PictureFormat, codel_size: u32) -> (r: Option<Result<Canvas, CanvasError>>)
        ensures
            r is None <==> !readable(image@, format, codel_size),
            r matches Some(res) ==> read_as(image@, format, codel_size, res),
    {
        if !Canvas::is_readable(image, format, codel_size) {
            return None;
        }
        Some(Canvas::new(image, format, codel_size))
    }

    /// Whether the image is readable (see `readable`).
    pub(crate) fn is_readable(image: &[u8], format: PictureFormat, codel_size: u32) -> (b: bool)
        ensures
            b == readable(image@, format, codel_size),
    {
        if let Ok((width, height, _)) = decode_rgba(image, format) {
            let height_fits = if codel_size == 0 { height == 0 } else { height % codel_size == 0 };
            if width == 0 && height_fits {
                return false;
            }
        }
        true
    }

    /// The width and height of the canvas, in codels.
    pub fn dimensions(&self) -> (d: (usize, usize))
        ensures
            d == self.spec_dimensions(),
    {
        (self.width, self.height)
    }

    /// The blocks of the canvas, by index.
    pub fn blocks(&self) -> (b: &Vec<CodelBlock>)
        ensures
            b@ == self.spec_blocks(),
    {
        &self.blocks
    }

    /// The codel at `(x, y)`.
    pub fn get_codel(&self, coordinate: Coordinate) -> (c: &Codel)
        requires
            self.shape_ok(),
            self.in_bounds(coordinate),
        ensures
            *c == self.spec_codel(coordinate),
    {
        let (x, y) = coordinate;
        proof {
            lemma_flat_in_range(self.spec_width(), self.spec_height(), coordinate);
            assert(self.codels@.len() == self.width * self.height);
            assert(x * self.height + y < self.codels.len());
        }
        let base: usize = x * self.height;
        &self.codels[base + y]
    }

    /// Whether the codel at `coordinate` has the colour `colour`.
    pub fn is_colour(&self, coordinate: Coordinate, colour: PietColour) -> (b: bool)
        requires
            self.shape_ok(),
            self.in_bounds(coordinate),
        ensures
            b == (self.spec_codel(coordinate).spec_colour_name() == colour),
    {
        self.get_codel(coordinate).is_colour(colour)
    }

    /// The block that holds the codel at `coordinate`, if it is coloured.
    pub fn get_block(&self, coordinate: Coordinate) -> (r: Option<&CodelBlock>)
        requires
            self.shape_ok(),
            self.indices_below(self.spec_blocks().len() as int),
            self.in_bounds(coordinate),
        ensures
            r matches Some(blk) ==> self.spec_codel(coordinate).spec_block_index() matches Some(i)
                && *blk == self.spec_blocks()[i as int],
            r is None <==> self.spec_codel(coordinate).spec_block_index() is None,
    {
        proof {
            lemma_flat_in_range(self.spec_width(), self.spec_height(), coordinate);
        }
        match self.get_codel(coordinate).block_index() {
            Some(index) => Some(&self.blocks[index]),
            None => None,
        }
    }

    /// Whether `coordinate` lies in the northmost row.
    pub fn is_northmost(&self, coordinate: Coordinate) -> (b: bool)
        ensures
            b == (coordinate.1 == 0),
    {
        let (_, y) = coordinate;
        y == 0
    }

    /// Whether `coordinate` lies in the eastmost column.
    pub fn is_eastmost(&self, coordinate: Coordinate) -> (b: bool)
        requires
            self.spec_width() > 0,
        ensures
            b == (coordinate.0 == self.spec_width() - 1),
    {
        let (x, _) = coordinate;
        x == self.width - 1
    }

    /// Whether `coordinate` lies in the southmost row.
    pub fn is_southmost(&self, coordinate: Coordinate) -> (b: bool)
        requires
            self.spec_height() > 0,
        ensures
            b == (coordinate.1 == self.spec_height() - 1),
    {
        let (_, y) = coordinate;
        y == self.height - 1
    }

    /// Whether `coordinate` lies in the westmost column.
    pub fn is_westmost(&self, coordinate: Coordinate) -> (b: bool)
        ensures
            b == (coordinate.0 == 0),
    {
        let (x, _) = coordinate;
        x == 0
    }

    fn east(&self, coordinate: Coordinate) -> (r: Option<Coordinate>)
        requires
            self.spec_width() > 0,
            coordinate.0 < self.spec_width(),
        ensures
            r == (if coordinate.0 == self.spec_width() - 1 { None } else { Some(((coordinate.0 + 1) as usize, coordinate.1)) }),
    {
        if self.is_eastmost(coordinate) {
            return None;
        }
        let (x, y) = coordinate;
        Some((x + 1, y))
    }

    fn west(&self, coordinate: Coordinate) -> (r: Option<Coordinate>)
        ensures
            r == (if coordinate.0 == 0 { None } else { Some(((coordinate.0 - 1) as usize, coordinate.1)) }),
    {
        if self.is_westmost(coordinate) {
            return None;
        }
        let (x, y) = coordinate;
        Some((x - 1, y))
    }
}

/// Coordinates on the grid are kept at distinct indices below `w * h`.
pub proof fn lemma_flat_in_range(w: int, h: int, c: Coordinate)
    requires
        on_grid(w, h, c),
    ensures
        0 <= flat(h, c) < w * h,
{
    assert(0 <= c.0 * h + c.1 < w * h) by (nonlinear_arith)
        requires c.0 < w, c.1 < h, c.0 >= 0, c.1 >= 0;
}

pub proof fn lemma_flat_injective(h: int, c: Coordinate, d: Coordinate)
    requires
        c.1 < h,
        d.1 < h,
        flat(h, c) == flat(h, d),
    ensures
        c == d,
{
    assert(c.0 == d.0) by (nonlinear_arith)
        requires c.0 * h + c.1 == d.0 * h + d.1, c.1 < h, d.1 < h, c.1 >= 0, d.1 >= 0, c.0 >= 0, d.0 >= 0;
}

/// Whether `a` is a multiple of `m` (with `0` the only multiple of `0`).
pub open spec fn multiple_of(a: int, m: int) -> bool {
    if m == 0 { a == 0 } else { a % m == 0 }
}

/// The RGBA value of the pixel at `(x, y)` of an image of width `width` whose
/// pixels are kept row by row, four bytes each.
pub open spec fn pixel_at(pixels: Seq<u8>, width: int, x: int, y: int) -> (u8, u8, u8, u8) {
    let k = (y * width + x) * 4;
    (pixels[k], pixels[k + 1], pixels[k + 2], pixels[k + 3])
}

/// The colour that the codel at `c` is read as, for codels of `codel_size`
/// pixels: that of the codel's north-west pixel.
pub open spec fn codel_colour(pixels: Seq<u8>, width: int, codel_size: int, c: Coordinate) -> PietColour {
    Codel::spec_colour_of_rgba(pixel_at(pixels, width, c.0 * codel_size, c.1 * codel_size))
}

/// The image file formats that a canvas can be read from.
#[derive(Debug, Clone, Copy, PartialEq, Eq, Structural)]
pub enum PictureFormat {
    Png,
    Jpeg,
    Gif,
    WebP,
    Pnm,
    Tiff,
    Tga,
    Bmp,
    Ico,
    Qoi,
}

/// A name for what decoding `bytes` as an image file of format `format` with
/// the `image` crate and converting the result to 8-bit RGBA gives:
/// `(width, height, pixels)`, the pixels row by row, four bytes each; `None`
/// where decoding fails.
pub uninterp spec fn decoded_rgba(bytes: Seq<u8>, format: PictureFormat) -> Option<(u32, u32, Seq<u8>)>;

/// Decodes an image with `image::load_from_memory_with_format`, in the format
/// given, and converts it with `DynamicImage::to_rgba8`. With its format
/// given, the `image` crate picks the decoder of that format alone: it
/// consults neither its format-guessing nor its decoding hooks. The contract
/// claims only that the result is a function of the bytes and the format (the
/// name `decoded_rgba`) and that the pixel buffer holds at least four bytes
/// per pixel, which `ImageBuffer` checks whenever it builds a buffer; what
/// decoding computes is not stated.
#[verifier::external_body]
fn decode_rgba(bytes: &[u8], format: PictureFormat) -> (r: Result<(u32, u32, Vec<u8>), image::ImageError>)
    ensures
        match r {
            Ok((w, h, p)) => decoded_rgba(bytes@, format) == Some((w, h, p@)) && p@.len() >= 4 * w * h,
            Err(_) => decoded_rgba(bytes@, format) is None,
        },
{
    let format = match format {
        PictureFormat::Png => ImageFormat::Png, PictureFormat::Jpeg => ImageFormat::Jpeg,
        PictureFormat::Gif => ImageFormat::Gif, PictureFormat::WebP => ImageFormat::WebP,
        PictureFormat::Pnm => ImageFormat::Pnm, PictureFormat::Tiff => ImageFormat::Tiff,
        PictureFormat::Tga => ImageFormat::Tga, PictureFormat::Bmp => ImageFormat::Bmp,
        PictureFormat::Ico => ImageFormat::Ico, PictureFormat::Qoi => ImageFormat::Qoi,
    };
    match image::load_from_memory_with_format(bytes, format) {
        Ok(image) => {
            let rgba = image.to_rgba8();
            Ok((rgba.width(), rgba.height(), rgba.into_raw()))
        },
        Err(e) => Err(e),
    }
}

/// An image of `bytes`, read with codels of `codel_size` pixels, does not end
/// with a canvas of no columns: the one input on which reading cannot go on.
pub open spec fn readable(bytes: Seq<u8>, format: PictureFormat, codel_size: u32) -> bool {
    decoded_rgba(bytes, format) matches Some((w, h, _)) ==> (w > 0 || !multiple_of(h as int, codel_size as int))
}

/// `r` is what reading the image of `bytes` with codels of `codel_size`
/// pixels gives: a decoding error where the bytes are no image, a size error
/// where a dimension is not a multiple of the codel size, and otherwise a
/// well-formed canvas whose codels have the colours of the image and whose
/// blocks are the connected regions of one colour, numbered in the order of
/// their first codels, column by column.
pub open spec fn read_as(bytes: Seq<u8>, format: PictureFormat, codel_size: u32, r: Result<Canvas, CanvasError>) -> bool {
    match decoded_rgba(bytes, format) {
        None => r matches Err(e) && e is Image,
        Some((w, h, p)) => {
            &&& (r is Err <==> !(multiple_of(w as int, codel_size as int) && multiple_of(h as int, codel_size as int)))
            &&& (r matches Err(e) ==> e is CodelSizeMismatch)
            &&& (r matches Ok(canvas) ==> {
                &&& canvas.wf()
                &&& canvas.blocks_connected()
                &&& canvas.blocks_maximal()
                &&& canvas.numbered_in_order()
                &&& canvas.spec_width() == w / codel_size
                &&& canvas.spec_height() == h / codel_size
                &&& forall|c: Coordinate| canvas.in_bounds(c) ==>
                    (#[trigger] canvas.spec_codel(c)).spec_colour_name() == codel_colour(p, w as int, codel_size as int, c)
            })
        },
    }
}

proof fn lemma_pixel_in_range(width: int, height: int, x: int, y: int)
    requires
        0 <= x < width,
        0 <= y < height,
    ensures
        0 <= (y * width + x) * 4,
        (y * width + x) * 4 + 3 < 4 * width * height,
        y * width + x < width * height,
{
    assert(y * width + x < width * height) by (nonlinear_arith)
        requires 0 <= x < width, 0 <= y < height;
    assert(0 <= y * width) by (nonlinear_arith) requires 0 <= y, 0 <= width;
    assert(4 * width * height == 4 * (width * height)) by (nonlinear_arith);
}

proof fn lemma_scaled_in_range(i: int, size: int, n: int)
    requires
        size > 0,
        0 <= i < n / size,
        n >= 0,
    ensures
        0 <= i * size < n,
{
    vstd::arithmetic::div_mod::lemma_fundamental_div_mod(n, size);
    assert(0 <= i * size < n) by (nonlinear_arith)
        requires size > 0, 0 <= i, i < n / size, n == size * (n / size) + n % size, n % size >= 0;
}

/// Whether two RGBA values are equal, component by component.
fn same_rgba(a: [u8; 4], b: [u8; 4]) -> (r: bool)
    ensures
        r == ((a[0], a[1], a[2], a[3]) == (b[0], b[1], b[2], b[3])),
{
    a[0] == b[0] && a[1] == b[1] && a[2] == b[2] && a[3] == b[3]
}

/// The Euclidean remainder of `x` by a small positive `m`, as a byte.
fn euclid_rem(x: i16, m: i16) -> (r: u8)
    requires
        0 < m <= 255,
    ensures
        r == (x % m) as u8,
        r == x % m,
{
    match x.checked_rem_euclid(m) {
        Some(r) => r as u8,
        None => 0,
    }
}

} // verus!
