//! Where things go on the screen.

use vstd::prelude::*;

verus! {

/// A part of the screen, in terminal cells.
#[derive(Clone, Copy, PartialEq, Eq, Structural, Debug)]
pub struct Rect {
    pub x: u16,
    pub y: u16,
    pub width: u16,
    pub height: u16,
}

/// What a part of a split is to be like.
#[derive(Clone, Copy, PartialEq, Eq, Structural, Debug)]
pub enum Size {
    /// So many cells.
    Length(u16),
    /// An equal share of what the others leave.
    Fill,
}

impl Rect {
    /// Its right and lower edge are cells that can be counted.
    pub open spec fn wf(self) -> bool {
        &&& self.x + self.width <= 65535
        &&& self.y + self.height <= 65535
    }

    /// Whether it lies within `outer`.
    pub open spec fn inside(self, outer: Rect) -> bool {
        &&& outer.x <= self.x
        &&& self.x + self.width <= outer.x + outer.width
        &&& outer.y <= self.y
        &&& self.y + self.height <= outer.y + outer.height
    }

    /// What is left of it beside a margin to the left and right. A rectangle that has no room for
    /// the margin gives the empty one in the upper left corner of the screen.
    pub open spec fn without_margin(self, margin: u16) -> Rect {
        if self.width < 2 * margin {
            Rect { x: 0, y: 0, width: 0, height: 0 }
        } else {
            Rect {
                x: (self.x + margin) as u16,
                y: self.y,
                width: (self.width - 2 * margin) as u16,
                height: self.height,
            }
        }
    }

    /// What is left of it inside a border of one cell.
    pub open spec fn without_border(self) -> Rect {
        Rect {
            x: if self.width > 0 {
                (self.x + 1) as u16
            } else {
                self.x
            },
            y: if self.height > 0 {
                (self.y + 1) as u16
            } else {
                self.y
            },
            width: if self.width > 2 {
                (self.width - 2) as u16
            } else {
                0
            },
            height: if self.height > 2 {
                (self.height - 2) as u16
            } else {
                0
            },
        }
    }

    /// Where it starts and how long it is along one axis.
    pub open spec fn start(self, vertical: bool) -> u16 {
        if vertical {
            self.y
        } else {
            self.x
        }
    }

    pub open spec fn length(self, vertical: bool) -> u16 {
        if vertical {
            self.height
        } else {
            self.width
        }
    }
}

/// The number of parts that fill.
pub open spec fn fills(sizes: Seq<Size>) -> nat
    decreases sizes.len(),
{
    if sizes.len() == 0 {
        0
    } else {
        fills(sizes.drop_last()) + (if sizes.last() == Size::Fill {
            1nat
        } else {
            0nat
        })
    }
}

/// The number of cells that a part asks for: one that alone asks for a length gets no more than
/// there is.
pub open spec fn asked(sizes: Seq<Size>, available: nat, i: int) -> nat {
    match sizes[i] {
        Size::Fill => 0,
        Size::Length(length) => if fills(sizes) + 1 == sizes.len() && length > available {
            available
        } else {
            length as nat
        },
    }
}

/// The number of cells that the first `n` parts ask for.
pub open spec fn asked_before(sizes: Seq<Size>, available: nat, n: nat) -> nat
    decreases n,
{
    if n == 0 {
        0
    } else {
        asked_before(sizes, available, (n - 1) as nat) + asked(sizes, available, n - 1)
    }
}

/// The number of cells that a part gets where there are enough: the length that it asks for, or
/// its share of the rest, of two shares the first no less than the second.
pub open spec fn granted(sizes: Seq<Size>, available: nat, i: int) -> nat {
    let rest = (available - asked_before(sizes, available, sizes.len())) as nat;
    if sizes[i] != Size::Fill {
        asked(sizes, available, i)
    } else if fills(sizes) == 1 {
        rest
    } else if fills(sizes.take(i)) == 0 {
        (rest + 1) / 2
    } else {
        rest / 2
    }
}

/// The number of cells that the first `n` parts get.
pub open spec fn granted_before(sizes: Seq<Size>, available: nat, n: nat) -> nat
    decreases n,
{
    if n == 0 {
        0
    } else {
        granted_before(sizes, available, (n - 1) as nat) + granted(sizes, available, n - 1)
    }
}

/// `parts` is a split of `area`, less a margin to the left and right, along one axis: as many
/// parts as sizes, each as wide as the area the other way and within it this way, and where there
/// are cells enough for all lengths, one after the other with the cells that they are granted.
pub open spec fn is_split(
    vertical: bool,
    margin: u16,
    sizes: Seq<Size>,
    area: Rect,
    parts: Seq<Rect>,
) -> bool {
    let inner = area.without_margin(margin);
    let available = inner.length(vertical) as nat;
    &&& parts.len() == sizes.len()
    &&& forall|i: int|
        0 <= i < parts.len() ==> {
            &&& (#[trigger] parts[i]).start(!vertical) == inner.start(!vertical)
            &&& parts[i].length(!vertical) == inner.length(!vertical)
            &&& inner.start(vertical) <= parts[i].start(vertical)
            &&& parts[i].start(vertical) + parts[i].length(vertical) <= inner.start(vertical)
                + available
        }
    &&& asked_before(sizes, available, sizes.len()) <= available ==> forall|i: int|
        0 <= i < parts.len() ==> {
            &&& (#[trigger] parts[i]).start(vertical) == inner.start(vertical) + granted_before(
                sizes,
                available,
                i as nat,
            )
            &&& parts[i].length(vertical) == granted(sizes, available, i)
        }
}

/// Calls `ratatui::layout::Layout::split`, which lays out constraints along one axis with a
/// linear solver. It keeps every part within the area as a hard constraint; below that, in this
/// order, it keeps parts together, gives lengths what they ask for, lets the parts that fill
/// take the rest, and makes these equal. Where lengths do not fit, the order in which the solver
/// walks its tables may decide who gives way, so nothing is stated there but the bounds.
#[verifier::external_body]
pub(crate) fn split(vertical: bool, margin: u16, sizes: &Vec<Size>, area: Rect) -> (parts: Vec<
    Rect,
>)
    requires
        area.wf(),
        2 * margin <= 65535,
        0 < sizes@.len() <= 3,
        fills(sizes@) <= 2,
    ensures
        is_split(vertical, margin, sizes@, area, parts@),
{
    let direction = if vertical {
        ratatui::layout::Direction::Vertical
    } else {
        ratatui::layout::Direction::Horizontal
    };
    let constraints = sizes.iter().map(|size| match size {
        Size::Length(length) => ratatui::layout::Constraint::Length(*length),
        Size::Fill => ratatui::layout::Constraint::Fill(1),
    });
    let area = ratatui::layout::Rect::new(area.x, area.y, area.width, area.height);
    let layout = ratatui::layout::Layout::default().direction(direction).horizontal_margin(margin);
    let parts = layout.constraints(constraints).split(area);
    parts.iter().map(|r| Rect { x: r.x, y: r.y, width: r.width, height: r.height }).collect()
}

/// Calls `ratatui::widgets::Block::inner` for a block with all borders and no padding: the area
/// within a border of one cell, with nothing left of an area that is no wider or no higher than
/// its borders.
#[verifier::external_body]
pub(crate) fn bordered(area: Rect) -> (inner: Rect)
    requires
        area.wf(),
    ensures
        inner == area.without_border(),
{
    let block = ratatui::widgets::Block::default().borders(ratatui::widgets::Borders::ALL);
    let area = ratatui::layout::Rect::new(area.x, area.y, area.width, area.height);
    let inner = block.inner(area);
    Rect { x: inner.x, y: inner.y, width: inner.width, height: inner.height }
}

/// The number of cells that a length gets of those that there are, and where it starts when it is
/// put in the middle.
pub open spec fn clipped(length: u16, available: u16) -> u16 {
    if length < available {
        length
    } else {
        available
    }
}

/// The rectangle of a given size in the middle of `area`, cut down to it.
pub open spec fn middle(width: u16, height: u16, area: Rect) -> Rect {
    let w = clipped(width, area.width);
    let h = clipped(height, area.height);
    Rect {
        x: (area.x + (area.width - w + 1) / 2) as u16,
        y: (area.y + (area.height - h + 1) / 2) as u16,
        width: w,
        height: h,
    }
}

/// What the split into filler, length and filler gives the middle part.
proof fn lemma_middle(sizes: Seq<Size>, length: u16, available: u16)
    requires
        sizes == seq![Size::Fill, Size::Length(length), Size::Fill],
    ensures
        fills(sizes) == 2,
        asked_before(sizes, available as nat, 3) == clipped(length, available),
        granted_before(sizes, available as nat, 1) == (available - clipped(length, available) + 1)
            / 2,
        granted(sizes, available as nat, 1) == clipped(length, available),
{
    let a: nat = available as nat;
    assert(sizes.drop_last() =~= seq![Size::Fill, Size::Length(length)]);
    assert(sizes.drop_last().drop_last() =~= seq![Size::Fill]);
    assert(sizes.drop_last().drop_last().drop_last() =~= Seq::<Size>::empty());
    reveal_with_fuel(fills, 4);
    reveal_with_fuel(asked_before, 4);
    reveal_with_fuel(granted_before, 2);
    assert(sizes.take(0) =~= Seq::<Size>::empty());
}

/// Carves a rectangle of a fixed size out of the middle of `area`.
pub fn centered_rect(width: u16, height: u16, area: Rect) -> (r: Rect)
    requires
        area.wf(),
    ensures
        r == middle(width, height, area),
        r.wf(),
        r.inside(area),
{
    let rows: Vec<Size> = vec![Size::Fill, Size::Length(height), Size::Fill];
    let columns: Vec<Size> = vec![Size::Fill, Size::Length(width), Size::Fill];
    proof {
        lemma_middle(rows@, height, area.height);
        lemma_middle(columns@, width, area.width);
    }
    let vertical: Vec<Rect> = split(true, 0, &rows, area);
    let row: Rect = vertical[1];
    let horizontal: Vec<Rect> = split(false, 0, &columns, row);
    horizontal[1]
}

} // verus!
