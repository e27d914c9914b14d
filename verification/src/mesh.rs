//! Lists of quad references: drawing one onto a small screen, and merging
//! the quads of one list that continue each other from row to row.

use vstd::prelude::*;
use crate::quad::{HEIGHT_UNIT, width_of, height_of};

verus! {

/// The part that a cell of the screen has in the quad that it shows.
#[derive(Clone, Copy, Debug, PartialEq, Eq, Structural)]
pub enum Kind {
    Initial,
    Inside,
    Final,
    Single,
}

impl Kind {
    /// The two characters that stand for the kind on a terminal.
    pub open spec fn spec_glyph(self) -> Seq<char> {
        match self {
            Kind::Initial => "\u{2588}\u{2588}"@,
            Kind::Inside => "\u{2591}\u{2591}"@,
            Kind::Final => "\u{2592}\u{2592}"@,
            Kind::Single => "\u{2588}\u{2592}"@,
        }
    }

    /// The two characters that stand for the kind on a terminal.
    pub fn glyph(self) -> (r: &'static str)
        ensures
            r@ == self.spec_glyph(),
    {
        match self {
            Kind::Initial => "\u{2588}\u{2588}",
            Kind::Inside => "\u{2591}\u{2591}",
            Kind::Final => "\u{2592}\u{2592}",
            Kind::Single => "\u{2588}\u{2592}",
        }
    }
}

/// The colour of a quad: the low half of its offset field.
pub open spec fn color_of(quad: u64) -> u16 {
    (quad & 0xFFFF) as u16
}

/// The first column of a quad.
pub open spec fn column_of(quad: u64) -> u64 {
    (quad >> 32) & 31
}

/// The first row of a quad.
pub open spec fn row_of(quad: u64) -> u64 {
    (quad >> 37) & 31
}

/// The quad lies on the screen of eight by eight cells.
pub open spec fn on_screen(quad: u64) -> bool {
    column_of(quad) + width_of(quad) < 8 && row_of(quad) + height_of(quad) < 8
}

/// The quad covers the cell in column `x` of row `y`.
pub open spec fn covers(quad: u64, x: int, y: int) -> bool {
    column_of(quad) <= x <= column_of(quad) + width_of(quad) && row_of(quad) <= y <= row_of(quad)
        + height_of(quad)
}

/// What a cell that the quad covers shows of it: a quad of one cell is
/// `Single`; of a larger one the last cell is `Final`, the first `Initial`,
/// and the others are `Inside`.
pub open spec fn kind_at(quad: u64, x: int, y: int) -> Kind {
    if width_of(quad) == 0 && height_of(quad) == 0 {
        Kind::Single
    } else if x == column_of(quad) + width_of(quad) && y == row_of(quad) + height_of(quad) {
        Kind::Final
    } else if x == column_of(quad) && y == row_of(quad) {
        Kind::Initial
    } else {
        Kind::Inside
    }
}

/// A cell after one quad has been drawn.
pub open spec fn inked(quad: u64, cell: (u16, Kind), x: int, y: int) -> (u16, Kind) {
    if covers(quad, x, y) {
        (color_of(quad), kind_at(quad, x, y))
    } else {
        cell
    }
}

/// A cell after the quads of a list have been drawn in turn: it shows the
/// last quad that covers it, and what it showed before where none does.
pub open spec fn painted(mesh: Seq<u64>, cell: (u16, Kind), x: int, y: int) -> (u16, Kind)
    decreases mesh.len(),
{
    if mesh.len() == 0 {
        cell
    } else {
        inked(mesh.last(), painted(mesh.drop_last(), cell, x, y), x, y)
    }
}

/// Draws the quads of `mesh` onto `screen`, in turn.
pub fn render(mesh: &[u64], screen: &mut [[(u16, Kind); 8]; 8])
    requires
        forall|i: int| 0 <= i < mesh@.len() ==> on_screen(#[trigger] mesh@[i]),
    ensures
        forall|x: int, y: int|
            0 <= x < 8 && 0 <= y < 8 ==> (#[trigger] final(screen)@[y]@[x]) == painted(
                mesh@,
                old(screen)@[y]@[x],
                x,
                y,
            ),
{
    let ghost first = *screen;
    let mut i: usize = 0;
    while i < mesh.len()
        invariant
            i <= mesh.len(),
            forall|k: int| 0 <= k < mesh@.len() ==> on_screen(#[trigger] mesh@[k]),
            forall|x: int, y: int|
                0 <= x < 8 && 0 <= y < 8 ==> (#[trigger] screen@[y]@[x]) == painted(
                    mesh@.take(i as int),
                    first@[y]@[x],
                    x,
                    y,
                ),
        decreases mesh.len() - i,
    {
        let quad = mesh[i];
        let color = (quad & 0xFFFF) as u16;
        let x0 = (quad >> 32) & 31;
        let y0 = (quad >> 37) & 31;
        let width = (quad >> 51) & 31;
        let height = (quad >> 56) & 31;
        assert(on_screen(mesh@[i as int]));
        let ghost before = *screen;
        let mut y = y0;
        while y <= y0 + height
            invariant
                y0 <= y <= y0 + height + 1,
                x0 == column_of(quad),
                y0 == row_of(quad),
                width == width_of(quad),
                height == height_of(quad),
                color == color_of(quad),
                on_screen(quad),
                forall|a: int, b: int|
                    0 <= a < 8 && 0 <= b < 8 ==> (#[trigger] screen@[b]@[a]) == (if b < y {
                        inked(quad, before@[b]@[a], a, b)
                    } else {
                        before@[b]@[a]
                    }),
            decreases y0 + height + 1 - y,
        {
            let mut x = x0;
            let ghost above = *screen;
            while x <= x0 + width
                invariant
                    x0 <= x <= x0 + width + 1,
                    y0 <= y <= y0 + height,
                    x0 == column_of(quad),
                    y0 == row_of(quad),
                    width == width_of(quad),
                    height == height_of(quad),
                    color == color_of(quad),
                    on_screen(quad),
                    forall|a: int, b: int|
                        0 <= a < 8 && 0 <= b < 8 ==> (#[trigger] screen@[b]@[a]) == (if b == y
                            && a < x {
                            inked(quad, above@[b]@[a], a, b)
                        } else {
                            above@[b]@[a]
                        }),
                decreases x0 + width + 1 - x,
            {
                let kind = if width == 0 && height == 0 {
                    Kind::Single
                } else if x == x0 + width && y == y0 + height {
                    Kind::Final
                } else if x == x0 && y == y0 {
                    Kind::Initial
                } else {
                    Kind::Inside
                };
                let mut row = screen[y as usize];
                row[x as usize] = (color, kind);
                screen[y as usize] = row;
                x = x + 1;
            }
            y = y + 1;
        }
        proof {
            assert(mesh@.take(i + 1).drop_last() =~= mesh@.take(i as int));
            assert(mesh@.take(i + 1).last() == quad);
        }
        i = i + 1;
    }
    proof {
        assert(mesh@.take(mesh@.len() as int) =~= mesh@);
    }
}

/// What the sweep does with a quad when it looks at a later one.
#[derive(Clone, Copy, Debug, PartialEq, Eq, Structural)]
pub enum Verdict {
    /// The later quad is passed by.
    Skip,
    /// The quad is kept as it is.
    Emit,
    /// The quad grows by one row and takes the place of the later one.
    Merge,
}

/// What two quads must share to be merged: colour and width.
pub open spec fn merge_key(quad: u64) -> u64 {
    quad & 0x00F8_0000_FFFF_FFFF
}

/// The verdict on `back` as seen from `lead`. A quad that starts on the last
/// row of `back` is passed by. One that starts on the row after it is passed
/// by if it starts to the left of `back`, merged if it has the colour and
/// the width of `back`, and ends `back` otherwise. One on any other row
/// ends it.
pub open spec fn verdict(back: u64, lead: u64) -> Verdict {
    let reach = row_of(back) + height_of(back);
    if row_of(lead) == reach {
        Verdict::Skip
    } else if row_of(lead) != reach + 1 {
        Verdict::Emit
    } else if column_of(back) > column_of(lead) {
        Verdict::Skip
    } else if merge_key(back) == merge_key(lead) {
        Verdict::Merge
    } else {
        Verdict::Emit
    }
}

/// The list that the sweep leaves when it stands at `back` and `lead`, with
/// `dest` quads kept so far.
pub open spec fn swept(mesh: Seq<u64>, dest: int, back: int, lead: int) -> Seq<u64>
    decreases 2 * mesh.len() - back - lead,
{
    if !(0 <= dest <= back < mesh.len() && 0 <= lead <= mesh.len()) {
        mesh.take(dest)
    } else if lead == mesh.len() {
        swept(mesh.update(dest, mesh[back]), dest + 1, back + 1, lead)
    } else {
        match verdict(mesh[back], mesh[lead]) {
            Verdict::Skip => swept(mesh, dest, back, lead + 1),
            Verdict::Emit => swept(mesh.update(dest, mesh[back]), dest + 1, back + 1, lead),
            Verdict::Merge => swept(
                mesh.update(lead, mesh[back].wrapping_add(HEIGHT_UNIT)),
                dest,
                back + 1,
                lead + 1,
            ),
        }
    }
}

/// Decides what becomes of `back` when the sweep looks at `lead`.
pub fn judge(back: u64, lead: u64) -> (r: Verdict)
    ensures
        r == verdict(back, lead),
{
    assert(((back >> 37) & 31) <= 31 && ((back >> 56) & 31) <= 31) by (bit_vector);
    let reach = ((back >> 37) & 31) + ((back >> 56) & 31);
    let row = (lead >> 37) & 31;
    if row == reach {
        Verdict::Skip
    } else if row != reach + 1 {
        Verdict::Emit
    } else if (back >> 32) & 31 > (lead >> 32) & 31 {
        Verdict::Skip
    } else if back & 0x00F8_0000_FFFF_FFFF == lead & 0x00F8_0000_FFFF_FFFF {
        Verdict::Merge
    } else {
        Verdict::Emit
    }
}

/// Merges, in one sweep over the list, each quad with the quad of the same
/// colour and width that starts on the row after it and not to its left.
pub fn greedy2d(mesh: &mut Vec<u64>)
    ensures
        final(mesh)@ == swept(old(mesh)@, 0, 0, 0),
{
    let mut dest: usize = 0;
    let mut back: usize = 0;
    let mut lead: usize = 0;
    while back < mesh.len()
        invariant
            dest <= back <= mesh.len(),
            lead <= mesh.len(),
            mesh@.len() == old(mesh)@.len(),
            swept(mesh@, dest as int, back as int, lead as int) == swept(old(mesh)@, 0, 0, 0),
        decreases 2 * mesh.len() - back - lead,
    {
        let b = mesh[back];
        if lead == mesh.len() {
            mesh.set(dest, b);
            dest = dest + 1;
            back = back + 1;
        } else {
            let l = mesh[lead];
            match judge(b, l) {
                Verdict::Skip => {
                    lead = lead + 1;
                },
                Verdict::Emit => {
                    mesh.set(dest, b);
                    dest = dest + 1;
                    back = back + 1;
                },
                Verdict::Merge => {
                    mesh.set(lead, b.wrapping_add(HEIGHT_UNIT));
                    back = back + 1;
                    lead = lead + 1;
                },
            }
        }
    }
    mesh.truncate(dest);
    proof {
        assert(old(mesh)@.len() == 0 ==> dest == 0);
    }
}

} // verus!
