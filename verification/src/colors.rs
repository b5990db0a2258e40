use vstd::prelude::*;
use crate::vga::Screen;

verus! {

pub const ScreenWidth: usize = 80;
pub const ScreenHeight: usize = 25;
pub const CellCount: usize = 2000;

/// Sixteen vertical bands, one per background colour, five columns wide.
pub open spec fn color_bands() -> Seq<u8> {
    Seq::new(4000, |k: int| if k % 2 == 0 { 32u8 } else { ((((k / 2) % 80) / 5) * 16) as u8 })
}

/// The picture `img`: each cell blank with the low four bits of its byte as background.
pub open spec fn picture(img: Seq<u8>) -> Seq<u8> {
    Seq::new(4000, |k: int| if k % 2 == 0 { 32u8 } else { ((img[k / 2] % 16) * 16) as u8 })
}

/// Fills the screen with the sixteen background colours in vertical bands.
pub fn colors(Screen: &mut Screen)
    requires
        old(Screen).wf(),
    ensures
        final(Screen).wf(),
        final(Screen).Cells@ == color_bands(),
{
    let ColumnWidth = ScreenWidth / 16;
    let mut Row: usize = 0;
    while Row < ScreenHeight
        invariant
            Screen.wf(),
            ColumnWidth == 5,
            Row <= 25,
            forall|k: int| 0 <= k < Row * 160 ==> #[trigger] Screen.Cells@[k] == color_bands()[k],
        decreases 25 - Row,
    {
        let mut Col: usize = 0;
        while Col < ScreenWidth
            invariant
                Screen.wf(),
                ColumnWidth == 5,
                Row < 25,
                Col <= 80,
                forall|k: int| 0 <= k < Row * 160 + Col * 2 ==> #[trigger] Screen.Cells@[k] == color_bands()[k],
            decreases 80 - Col,
        {
            let Background: u8 = (Col / ColumnWidth) as u8;
            let Foreground: u8 = 0u8;
            let Attribute: u8 = (Background << 4u8) | Foreground;
            assert(Attribute == Background * 16) by (bit_vector)
                requires
                    Background < 16,
                    Attribute == (Background << 4u8) | 0u8,
            ;
            let Index = Row * ScreenWidth + Col;
            Screen.Cells.set(Index * 2, 32u8);
            Screen.Cells.set(Index * 2 + 1, Attribute);
            proof {
                assert forall|k: int| 0 <= k < Row * 160 + (Col + 1) * 2 implies #[trigger] Screen.Cells@[k] == color_bands()[k] by {
                    if k >= Row * 160 + Col * 2 {
                        assert(k / 2 == Index);
                        assert((k / 2) % 80 == Col);
                    }
                }
            }
            Col = Col + 1;
        }
        Row = Row + 1;
    }
    assert(Screen.Cells@ =~= color_bands());
}

/// Draws the picture `Img`, one byte per cell: blank, background from the low four bits.
pub fn image(Screen: &mut Screen, Img: &[u8])
    requires
        old(Screen).wf(),
        Img@.len() >= 2000,
    ensures
        final(Screen).wf(),
        final(Screen).Cells@ == picture(Img@),
{
    let mut Index: usize = 0;
    while Index < CellCount
        invariant
            Screen.wf(),
            Img@.len() >= 2000,
            Index <= 2000,
            forall|k: int| 0 <= k < Index * 2 ==> #[trigger] Screen.Cells@[k] == picture(Img@)[k],
        decreases 2000 - Index,
    {
        let Background: u8 = Img[Index] & 0x0fu8;
        let Foreground: u8 = 0u8;
        let Attribute: u8 = (Background << 4u8) | Foreground;
        let Byte = Img[Index];
        assert(Attribute == (Byte % 16) * 16) by (bit_vector)
            requires
                Background == Byte & 0x0fu8,
                Attribute == (Background << 4u8) | 0u8,
        ;
        Screen.Cells.set(Index * 2, 32u8);
        Screen.Cells.set(Index * 2 + 1, Attribute);
        proof {
            assert forall|k: int| 0 <= k < (Index + 1) * 2 implies #[trigger] Screen.Cells@[k] == picture(Img@)[k] by {
                if k >= Index * 2 {
                    assert(k / 2 == Index);
                }
            }
        }
        Index = Index + 1;
    }
    assert(Screen.Cells@ =~= picture(Img@));
}

/// Each cell of the band picture is a blank whose background is the band of its column: the
/// sixteen colours from left to right, five columns each, the same on every row.
pub proof fn law_bands_by_column(row: int, col: int)
    requires
        0 <= row < 25,
        0 <= col < 80,
    ensures
        color_bands()[(row * 80 + col) * 2] == 32u8,
        color_bands()[(row * 80 + col) * 2 + 1] == (col / 5) * 16,
        color_bands()[(row * 80 + col) * 2 + 1] / 16 < 16,
{
    let k = (row * 80 + col) * 2;
    assert(0 <= k < 4000 && k % 2 == 0 && (k + 1) % 2 == 1 && (k + 1) / 2 == row * 80 + col) by (nonlinear_arith)
        requires
            0 <= row < 25,
            0 <= col < 80,
            k == (row * 80 + col) * 2,
    ;
    assert((row * 80 + col) % 80 == col) by (nonlinear_arith)
        requires
            0 <= row < 25,
            0 <= col < 80,
    ;
}

/// Each cell of a picture is a blank whose background is the low four bits of the picture's
/// byte for that cell.
pub proof fn law_picture_by_cell(img: Seq<u8>, cell: int)
    requires
        0 <= cell < 2000,
    ensures
        picture(img)[2 * cell] == 32u8,
        picture(img)[2 * cell + 1] == (img[cell] % 16) * 16,
{
    assert((2 * cell + 1) / 2 == cell && (2 * cell + 1) % 2 == 1 && (2 * cell) % 2 == 0);
}

} // verus!
