//! Cell labels and the two territories.

use vstd::prelude::*;

verus! {

/// One of the two opposing territories.
#[derive(Clone, Copy, PartialEq, Eq, Structural, Debug)]
pub enum Color {
    Red,
    Blue,
}

impl Color {
    /// The other territory.
    pub open spec fn rival(self) -> Color {
        match self {
            Color::Red => Color::Blue,
            Color::Blue => Color::Red,
        }
    }

    /// The other territory.
    pub fn opposite(self) -> (c: Color)
        ensures
            c == self.rival(),
    {
        match self {
            Color::Red => Color::Blue,
            Color::Blue => Color::Red,
        }
    }
}

/// The label that a cell of the volume carries.
#[derive(Clone, Copy, PartialEq, Eq, Structural, Debug)]
pub enum Label {
    /// Forced seed of the red territory.
    RedAnchor,
    /// Cell resolved to the red territory.
    RedArea,
    /// Cell of a zone forbidden to blue that the red territory encloses.
    RedPocket,
    /// Forced seed of the blue territory.
    BlueAnchor,
    /// Cell resolved to the blue territory.
    BlueArea,
    /// Cell of a zone forbidden to red that the blue territory encloses.
    BluePocket,
    /// Impassable membrane cell.
    Barrier,
    /// Cell that no pass has resolved yet.
    Undetermined,
    /// Cell that is impassable for red only.
    RedForbidden,
    /// Cell that is impassable for blue only.
    BlueForbidden,
}

impl Label {
    /// The forced seed label of a territory.
    pub open spec fn anchor_of(color: Color) -> Label {
        match color {
            Color::Red => Label::RedAnchor,
            Color::Blue => Label::BlueAnchor,
        }
    }

    /// The resolved label of a territory.
    pub open spec fn area_of(color: Color) -> Label {
        match color {
            Color::Red => Label::RedArea,
            Color::Blue => Label::BlueArea,
        }
    }

    /// The label of a cell that a territory has taken out of a zone forbidden to its rival.
    pub open spec fn pocket_of(color: Color) -> Label {
        match color {
            Color::Red => Label::RedPocket,
            Color::Blue => Label::BluePocket,
        }
    }

    /// The label of a cell that is impassable for one territory only.
    pub open spec fn forbidden_to(color: Color) -> Label {
        match color {
            Color::Red => Label::RedForbidden,
            Color::Blue => Label::BlueForbidden,
        }
    }

    /// Anchors and barrier cells are inputs: nothing ever relabels them.
    pub open spec fn is_fixed(self) -> bool {
        self == Label::RedAnchor || self == Label::BlueAnchor || self == Label::Barrier
    }

    /// The cells that a classification pass resolves.
    pub open spec fn is_open(self) -> bool {
        self == Label::Undetermined || self == Label::RedArea || self == Label::BlueArea
    }

    /// The territory that this cell seeds, if it is an anchor.
    pub open spec fn seeded(self) -> Option<Color> {
        match self {
            Label::RedAnchor => Some(Color::Red),
            Label::BlueAnchor => Some(Color::Blue),
            _ => None,
        }
    }

    /// The stable byte that stands for this label in a volume file.
    pub open spec fn byte(self) -> u8 {
        match self {
            Label::RedAnchor => 0,
            Label::RedArea => 1,
            Label::RedPocket => 2,
            Label::BlueAnchor => 3,
            Label::BlueArea => 4,
            Label::BluePocket => 5,
            Label::Barrier => 6,
            Label::Undetermined => 7,
            Label::RedForbidden => 8,
            Label::BlueForbidden => 9,
        }
    }

    /// The forced seed label of `color`.
    pub fn anchor(color: Color) -> (l: Label)
        ensures
            l == Label::anchor_of(color),
    {
        match color {
            Color::Red => Label::RedAnchor,
            Color::Blue => Label::BlueAnchor,
        }
    }

    /// The resolved label of `color`.
    pub fn area(color: Color) -> (l: Label)
        ensures
            l == Label::area_of(color),
    {
        match color {
            Color::Red => Label::RedArea,
            Color::Blue => Label::BlueArea,
        }
    }

    /// The pocket label of `color`.
    pub fn pocket(color: Color) -> (l: Label)
        ensures
            l == Label::pocket_of(color),
    {
        match color {
            Color::Red => Label::RedPocket,
            Color::Blue => Label::BluePocket,
        }
    }

    /// The label of a cell that is impassable for `color` only.
    pub fn forbidden(color: Color) -> (l: Label)
        ensures
            l == Label::forbidden_to(color),
    {
        match color {
            Color::Red => Label::RedForbidden,
            Color::Blue => Label::BlueForbidden,
        }
    }

    /// Whether nothing ever relabels this cell.
    pub fn fixed(self) -> (b: bool)
        ensures
            b == self.is_fixed(),
    {
        match self {
            Label::RedAnchor | Label::BlueAnchor | Label::Barrier => true,
            _ => false,
        }
    }

    /// Whether a classification pass resolves this cell.
    pub fn open(self) -> (b: bool)
        ensures
            b == self.is_open(),
    {
        match self {
            Label::Undetermined | Label::RedArea | Label::BlueArea => true,
            _ => false,
        }
    }

    /// The territory that this cell seeds, if it is an anchor.
    pub fn seed_color(self) -> (c: Option<Color>)
        ensures
            c == self.seeded(),
    {
        match self {
            Label::RedAnchor => Some(Color::Red),
            Label::BlueAnchor => Some(Color::Blue),
            _ => None,
        }
    }

    /// The byte written for this label in a volume file.
    pub fn code(self) -> (b: u8)
        ensures
            b == self.byte(),
    {
        match self {
            Label::RedAnchor => 0,
            Label::RedArea => 1,
            Label::RedPocket => 2,
            Label::BlueAnchor => 3,
            Label::BlueArea => 4,
            Label::BluePocket => 5,
            Label::Barrier => 6,
            Label::Undetermined => 7,
            Label::RedForbidden => 8,
            Label::BlueForbidden => 9,
        }
    }
}

} // verus!
