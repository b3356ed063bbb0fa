//! The mat codec: a byte buffer becomes a square grid of recolored glyph
//! cells (`export`), and such a grid becomes a byte buffer again
//! (`decode`).  Both sides share the spiral cell order and the corner
//! sampling protocol, which is what makes the format reversible.

use vstd::prelude::*;

use crate::color::{pick_color, pick_color_spec};
use crate::raster::{Raster, Rgb};
use crate::spiral::{lemma_spiral_in_range, lemma_spiral_injective, spiral_spec, spiral_walker};

verus! {

/// Why an encode or decode call failed.
#[derive(Clone, Copy, Debug, PartialEq, Eq, Structural)]
pub enum MatError {
    /// The font grid holds fewer cells than there are byte values.
    IncompleteFont,
    /// The image's dimensions are not an exact multiple of the cell size.
    GeometryMismatch,
}

/// `d` is the square root of `n`, rounded up.
pub open spec fn is_ceil_sqrt(n: int, d: int) -> bool {
    &&& d >= 0
    &&& d * d >= n
    &&& (d == 0 || (d - 1) * (d - 1) < n)
}

/// Rounding up pins the root down: no two values satisfy `is_ceil_sqrt`.
pub proof fn lemma_ceil_sqrt_unique(n: int, d1: int, d2: int)
    requires
        is_ceil_sqrt(n, d1),
        is_ceil_sqrt(n, d2),
    ensures
        d1 == d2,
{
    if d1 < d2 {
        assert(d1 * d1 <= (d2 - 1) * (d2 - 1)) by (nonlinear_arith)
            requires
                0 <= d1 <= d2 - 1,
        ;
    }
    if d2 < d1 {
        assert(d2 * d2 <= (d1 - 1) * (d1 - 1)) by (nonlinear_arith)
            requires
                0 <= d2 <= d1 - 1,
        ;
    }
}

/// The mat's side length for an input of `len` bytes: `ceil(sqrt(len))`.
pub fn mat_dim(len: usize) -> (d: u32)
    requires
        len <= u32::MAX as int,
    ensures
        is_ceil_sqrt(len as int, d as int),
{
    let mut d: u32 = 0;
    while (d as u64) * (d as u64) < (len as u64)
        invariant
            len <= u32::MAX as int,
            d <= 0x10000,
            (d as int) * (d as int) <= 0x100000000,
            d as int <= len as int,
            d == 0 || (d as int - 1) * (d as int - 1) < len as int,
        decreases len as int - d as int,
    {
        proof {
            assert((d as int) * (d as int) < 0x100000000) by (nonlinear_arith)
                requires
                    (d as int) * (d as int) < len as int && len as int <= 0xffffffff,
            ;
            assert(d < 0x10000) by (nonlinear_arith)
                requires
                    0 <= d && (d as int) * (d as int) < 0x100000000,
            ;
            if d >= 1 {
                assert(d as int <= (d as int) * (d as int)) by (nonlinear_arith)
                    requires
                        d >= 1,
                ;
            }
            assert((d as int + 1) * (d as int + 1) <= 0x100000000) by (nonlinear_arith)
                requires
                    d as int + 1 <= 0x10000,
            ;
        }
        d = d + 1;
    }
    d
}

/// The output name derived from the input: the input bytes with every space
/// replaced by an underscore, then the suffix `.rune`.
pub open spec fn name_of(input: Seq<u8>) -> Seq<u8> {
    input.map_values(
        |b: u8|
            if b == 0x20 {
                0x5fu8
            } else {
                b
            },
    ) + seq![0x2eu8, 0x72u8, 0x75u8, 0x6eu8, 0x65u8]
}

/// The input padded with spaces to fill a `dim × dim` mat exactly.  Padding
/// is always appended, never prepended.
pub open spec fn padded_input(input: Seq<u8>, dim: int) -> Seq<u8> {
    input + Seq::new((dim * dim - input.len()) as nat, |i: int| 0x20u8)
}

/// One channel at full intensity marks glyph ink; recoloring maps each ink
/// channel to the primary color's channel and every other channel to the
/// secondary color's.
pub open spec fn recolor(p: Rgb, primary: (u8, u8, u8), secondary: (u8, u8, u8)) -> Rgb {
    (
        if p.0 == 0xff {
            primary.0
        } else {
            secondary.0
        },
        if p.1 == 0xff {
            primary.1
        } else {
            secondary.1
        },
        if p.2 == 0xff {
            primary.2
        } else {
            secondary.2
        },
    )
}

/// The bitwise complement of a color, channel by channel.
pub open spec fn complement(c: (u8, u8, u8)) -> (u8, u8, u8) {
    ((255 - c.0) as u8, (255 - c.1) as u8, (255 - c.2) as u8)
}

/// Pixel `(px, py)` of the glyph cell for byte value `v` in a flat font
/// whose cells are `cw × ch` pixels, row-major.
pub open spec fn glyph_pixel(font: Seq<Rgb>, cw: int, ch: int, v: u8, px: int, py: int) -> Rgb {
    font[v * cw * ch + py * cw + px]
}

/// A mat codec session: the glyph font, the cell geometry, and the state of
/// the most recent encode or decode call.
pub struct Mat {
    /// The glyph font, flat: cell `v` spans `v*cw*ch .. (v+1)*cw*ch`.
    pub font: Vec<Rgb>,
    pub char_width: u32,
    pub char_height: u32,
    /// Side length, in cells, of the mat laid out by the last `input` or
    /// `read` call.
    pub dim: u32,
    pub input: Vec<u8>,
    /// Output name derived from the input.
    pub name: Vec<u8>,
    /// Ink color of the current mat.
    pub primary: (u8, u8, u8),
    /// Background color of the current mat.
    pub secondary: (u8, u8, u8),
}

impl Mat {
    /// The font covers every byte value and the cell geometry leaves room
    /// for the corner sampling protocol.
    pub open spec fn wf(self) -> bool {
        &&& 4 <= self.char_width <= 1024
        &&& 4 <= self.char_height <= 1024
        &&& self.font@.len() >= 256 * (self.char_width as int) * (self.char_height as int)
        &&& self.input@.len() <= u32::MAX as int
    }

    /// Builds a codec session over a font grid.  The grid must hold at
    /// least one `char_width × char_height` cell per byte value; a shorter
    /// grid is rejected.
    pub fn new(font: Vec<Rgb>, char_width: u32, char_height: u32) -> (r: Result<Mat, MatError>)
        requires
            4 <= char_width <= 1024,
            4 <= char_height <= 1024,
        ensures
            match r {
                Ok(m) => {
                    &&& m.wf()
                    &&& m.font@ == font@
                    &&& m.char_width == char_width
                    &&& m.char_height == char_height
                    &&& m.dim == 0
                    &&& m.input@ == Seq::<u8>::empty()
                    &&& m.name@ == Seq::<u8>::empty()
                    &&& m.primary == (0u8, 0u8, 0u8)
                    &&& m.secondary == (0u8, 0u8, 0u8)
                    &&& font@.len() >= 256 * (char_width as int) * (char_height as int)
                },
                Err(e) => {
                    &&& e == MatError::IncompleteFont
                    &&& font@.len() < 256 * (char_width as int) * (char_height as int)
                },
            },
    {
        proof {
            assert((256 * (char_width as int)) * (char_height as int) <= 0x10000000)
                by (nonlinear_arith)
                requires
                    char_width <= 1024 && char_height <= 1024,
            ;
        }
        let needed: usize = 256 * (char_width as usize) * (char_height as usize);
        if font.len() < needed {
            return Err(MatError::IncompleteFont);
        }
        Ok(
            Mat {
                font,
                char_width,
                char_height,
                dim: 0,
                input: Vec::new(),
                name: Vec::new(),
                primary: (0, 0, 0),
                secondary: (0, 0, 0),
            },
        )
    }

    pub fn get_input(&self) -> (r: &Vec<u8>)
        ensures
            r@ == self.input@,
    {
        &self.input
    }

    pub fn get_name(&self) -> (r: Vec<u8>)
        ensures
            r@ == self.name@,
    {
        let mut out: Vec<u8> = Vec::new();
        let mut i: usize = 0;
        while i < self.name.len()
            invariant
                i <= self.name@.len(),
                out@ == self.name@.subrange(0, i as int),
            decreases self.name@.len() - i,
        {
            out.push(self.name[i]);
            proof {
                assert(out@ =~= self.name@.subrange(0, i as int + 1));
            }
            i = i + 1;
        }
        proof {
            assert(out@ =~= self.name@);
        }
        out
    }

    /// Loads the buffer to encode: stores it, derives the output name, the
    /// mat dimension `ceil(sqrt(len))`, the content-derived primary color
    /// and its complement as the background color.
    pub fn input(&mut self, input: Vec<u8>)
        requires
            old(self).wf(),
            input@.len() <= u32::MAX as int,
        ensures
            final(self).wf(),
            final(self).font@ == old(self).font@,
            final(self).char_width == old(self).char_width,
            final(self).char_height == old(self).char_height,
            final(self).input@ == input@,
            final(self).name@ == name_of(input@),
            is_ceil_sqrt(input@.len() as int, final(self).dim as int),
            final(self).primary == pick_color_spec(input@),
            final(self).secondary == complement(pick_color_spec(input@)),
    {
        let mut name: Vec<u8> = Vec::new();
        let mut i: usize = 0;
        while i < input.len()
            invariant
                i <= input@.len(),
                name@.len() == i,
                forall|j: int|
                    0 <= j < i ==> name@[j] == (if input@[j] == 0x20 {
                        0x5fu8
                    } else {
                        input@[j]
                    }),
            decreases input@.len() - i,
        {
            let b = input[i];
            if b == 0x20 {
                name.push(0x5f);
            } else {
                name.push(b);
            }
            i = i + 1;
        }
        name.push(0x2e);
        name.push(0x72);
        name.push(0x75);
        name.push(0x6e);
        name.push(0x65);
        proof {
            assert(name@ =~= name_of(input@));
        }
        self.dim = mat_dim(input.len());
        let (c1, c2, c3) = pick_color(input.as_slice());
        self.primary = (c1, c2, c3);
        self.secondary = (255 - c1, 255 - c2, 255 - c3);
        self.name = name;
        self.input = input;
    }
}

/// Cell `(col, row)` of `img` shows the glyph for byte `v`, recolored with
/// the given ink and background colors.
pub open spec fn cell_shows_glyph(
    img: Raster,
    cw: int,
    ch: int,
    col: int,
    row: int,
    font: Seq<Rgb>,
    v: u8,
    primary: (u8, u8, u8),
    secondary: (u8, u8, u8),
) -> bool {
    forall|px: int, py: int|
        0 <= px < cw && 0 <= py < ch ==> img.spec_pixel(col * cw + px, row * ch + py) == recolor(
            #[trigger] glyph_pixel(font, cw, ch, v, px, py),
            primary,
            secondary,
        )
}

/// The mat dimension chosen for an input of `len` bytes.
pub open spec fn mat_dim_spec(len: int) -> int {
    choose|d: int| is_ceil_sqrt(len, d)
}

/// Any witness to `is_ceil_sqrt` is the chosen dimension.
pub proof fn lemma_mat_dim_spec(len: int, d: int)
    requires
        is_ceil_sqrt(len, d),
    ensures
        mat_dim_spec(len) == d,
{
    assert(is_ceil_sqrt(len, mat_dim_spec(len)));
    lemma_ceil_sqrt_unique(len, mat_dim_spec(len), d);
}

/// What `export` promises of the image it produces for `m`: a
/// `dim·char_width × dim·char_height` canvas on which, for every position
/// `i` of the spiral order, the cell there shows the glyph of byte `i` of
/// the space-padded input, recolored with `m`'s color pair.
pub open spec fn export_image(m: Mat, img: Raster) -> bool {
    let cw = m.char_width as int;
    let ch = m.char_height as int;
    let dim = mat_dim_spec(m.input@.len() as int);
    let padded = padded_input(m.input@, dim);
    &&& img.wf()
    &&& img.width as int == dim * cw
    &&& img.height as int == dim * ch
    &&& forall|i: int|
        0 <= i < dim * dim ==> cell_shows_glyph(
            img,
            cw,
            ch,
            (#[trigger] spiral_spec(dim)[i]).0 as int,
            spiral_spec(dim)[i].1 as int,
            m.font@,
            padded[i],
            m.primary,
            m.secondary,
        )
}

/// A glyph pixel's index lies inside the 256-cell font.
proof fn lemma_glyph_index(cw: int, ch: int, v: int, px: int, py: int)
    requires
        cw >= 1,
        ch >= 1,
        0 <= v < 256,
        0 <= px < cw,
        0 <= py < ch,
    ensures
        0 <= v * cw * ch + py * cw + px < 256 * cw * ch,
{
    crate::raster::lemma_row_major_in_range(cw, ch, px, py);
    crate::raster::lemma_row_major_in_range(cw * ch, 256, py * cw + px, v);
    assert(v * cw * ch == v * (cw * ch) && 256 * cw * ch == 256 * (cw * ch)
        && (cw * ch) * 256 == 256 * (cw * ch)) by (nonlinear_arith);
}

/// The column of a grid holding a pixel column: `cw` pixels per cell.
proof fn lemma_cell_coord(cw: int, col: int, px: int)
    requires
        cw >= 1,
        0 <= px < cw,
        0 <= col,
    ensures
        (col * cw + px) / cw == col,
{
    vstd::arithmetic::div_mod::lemma_fundamental_div_mod_converse(col * cw + px, cw, col, px);
}

/// Draws the glyph for byte `v`, recolored, into cell `(col, row)` of the
/// canvas; every pixel outside that cell keeps its value.
fn blit_cell(
    img: &mut Raster,
    font: &Vec<Rgb>,
    char_width: u32,
    char_height: u32,
    col: u32,
    row: u32,
    v: u8,
    primary: (u8, u8, u8),
    secondary: (u8, u8, u8),
)
    requires
        old(img).wf(),
        1 <= char_width <= 1024,
        1 <= char_height <= 1024,
        font@.len() >= 256 * (char_width as int) * (char_height as int),
        col as int * (char_width as int) + char_width as int <= old(img).width as int,
        row as int * (char_height as int) + char_height as int <= old(img).height as int,
    ensures
        final(img).wf(),
        final(img).width == old(img).width,
        final(img).height == old(img).height,
        cell_shows_glyph(
            *final(img),
            char_width as int,
            char_height as int,
            col as int,
            row as int,
            font@,
            v,
            primary,
            secondary,
        ),
        forall|x: int, y: int|
            0 <= x < old(img).width as int && 0 <= y < old(img).height as int && !(col as int
                * char_width as int <= x < col as int * char_width as int + char_width as int
                && row as int * char_height as int <= y < row as int * char_height as int
                + char_height as int) ==> final(img).spec_pixel(x, y) == old(img).spec_pixel(
                x,
                y,
            ),
{
    let ghost cw = char_width as int;
    let ghost ch = char_height as int;
    let ghost g_col = col as int;
    let ghost g_row = row as int;
    let ghost orig = *img;
    proof {
        assert(g_col * cw >= 0 && g_row * ch >= 0) by (nonlinear_arith)
            requires
                g_col >= 0 && g_row >= 0 && cw >= 1 && ch >= 1,
        ;
        assert((256 * cw) * ch <= 0x10000000) by (nonlinear_arith)
            requires
                1 <= cw <= 1024 && 1 <= ch <= 1024,
        ;
        assert(256 * cw * ch == (256 * cw) * ch) by (nonlinear_arith);
        assert(cw * ch <= 0x100000) by (nonlinear_arith)
            requires
                1 <= cw <= 1024 && 1 <= ch <= 1024,
        ;
        assert((v as int) * (cw * ch) <= 255 * 0x100000) by (nonlinear_arith)
            requires
                0 <= v as int <= 255 && 0 <= cw * ch <= 0x100000,
        ;
        assert((v as int) * (cw * ch) == v as int * cw * ch) by (nonlinear_arith);
        assert(g_col * cw + cw == (g_col + 1) * cw && g_row * ch + ch == (g_row + 1) * ch)
            by (nonlinear_arith);
    }
    let cell_size: usize = (char_width as usize) * (char_height as usize);
    let base: usize = (v as usize) * cell_size;
    let x0: u32 = col * char_width;
    let y0: u32 = row * char_height;
    let mut py: u32 = 0;
    while py < char_height
        invariant
            img.wf(),
            img.width == orig.width,
            img.height == orig.height,
            orig.wf(),
            1 <= char_width <= 1024,
            1 <= char_height <= 1024,
            cw == char_width as int && ch == char_height as int,
            g_col == col as int && g_row == row as int,
            font@.len() >= 256 * cw * ch,
            g_col * cw + cw <= orig.width as int,
            g_row * ch + ch <= orig.height as int,
            x0 as int == g_col * cw,
            y0 as int == g_row * ch,
            base as int == v as int * cw * ch,
            cell_size as int == cw * ch,
            256 * cw * ch <= 0x10000000,
            py <= char_height,
            forall|qx: int, qy: int|
                0 <= qx < cw && 0 <= qy < py as int ==> img.spec_pixel(
                    g_col * cw + qx,
                    g_row * ch + qy,
                ) == recolor(
                    #[trigger] glyph_pixel(font@, cw, ch, v, qx, qy),
                    primary,
                    secondary,
                ),
            forall|x: int, y: int|
                0 <= x < orig.width as int && 0 <= y < orig.height as int && !(g_col * cw <= x
                    < g_col * cw + cw && g_row * ch <= y < g_row * ch + py as int)
                    ==> img.spec_pixel(x, y) == orig.spec_pixel(x, y),
        decreases char_height as int - py as int,
    {
        let mut px: u32 = 0;
        while px < char_width
            invariant
                img.wf(),
                img.width == orig.width,
                img.height == orig.height,
                orig.wf(),
                1 <= char_width <= 1024,
                1 <= char_height <= 1024,
                cw == char_width as int && ch == char_height as int,
                g_col == col as int && g_row == row as int,
                font@.len() >= 256 * cw * ch,
                g_col * cw + cw <= orig.width as int,
                g_row * ch + ch <= orig.height as int,
                x0 as int == g_col * cw,
                y0 as int == g_row * ch,
                base as int == v as int * cw * ch,
                cell_size as int == cw * ch,
                256 * cw * ch <= 0x10000000,
                py < char_height,
                px <= char_width,
                forall|qx: int, qy: int|
                    0 <= qx < cw && 0 <= qy < py as int ==> img.spec_pixel(
                        g_col * cw + qx,
                        g_row * ch + qy,
                    ) == recolor(
                        #[trigger] glyph_pixel(font@, cw, ch, v, qx, qy),
                        primary,
                        secondary,
                    ),
                forall|qx: int|
                    0 <= qx < px as int ==> img.spec_pixel(
                        g_col * cw + qx,
                        g_row * ch + py as int,
                    ) == recolor(
                        #[trigger] glyph_pixel(font@, cw, ch, v, qx, py as int),
                        primary,
                        secondary,
                    ),
                forall|x: int, y: int|
                    0 <= x < orig.width as int && 0 <= y < orig.height as int && !(g_col * cw <= x
                        < g_col * cw + cw && g_row * ch <= y < g_row * ch + py as int) && !(y
                        == g_row * ch + py as int && g_col * cw <= x < g_col * cw + px as int)
                        ==> img.spec_pixel(x, y) == orig.spec_pixel(x, y),
            decreases char_width as int - px as int,
        {
            proof {
                lemma_glyph_index(cw, ch, v as int, px as int, py as int);
                crate::raster::lemma_row_major_in_range(cw, ch, px as int, py as int);
                assert((x0 as int) + (px as int) < orig.width as int);
                assert((y0 as int) + (py as int) < orig.height as int);
            }
            let idx: usize = base + ((py as usize) * (char_width as usize) + (px as usize));
            let p = font_pixel(font, idx);
            let q = (
                if p.0 == 0xff {
                    primary.0
                } else {
                    secondary.0
                },
                if p.1 == 0xff {
                    primary.1
                } else {
                    secondary.1
                },
                if p.2 == 0xff {
                    primary.2
                } else {
                    secondary.2
                },
            );
            let ghost before = *img;
            img.put_pixel(x0 + px, y0 + py, q);
            proof {
                let gx = g_col * cw + px as int;
                let gy = g_row * ch + py as int;
                let w = orig.width as int;
                let h = orig.height as int;
                crate::raster::lemma_row_major_in_range(w, h, gx, gy);
                assert(img.pixels@ == before.pixels@.update(gy * w + gx, q));
                assert(q == recolor(glyph_pixel(font@, cw, ch, v, px as int, py as int),
                    primary, secondary));
                assert(img.spec_pixel(gx, gy) == q);
                assert forall|x: int, y: int|
                    0 <= x < w && 0 <= y < h && (x, y) != (gx, gy) implies img.spec_pixel(x, y)
                    == before.spec_pixel(x, y) by {
                    crate::raster::lemma_row_major_in_range(w, h, x, y);
                    crate::raster::lemma_row_major_injective(w, x, y, gx, gy);
                };
                assert forall|qx: int, qy: int|
                    0 <= qx < cw && 0 <= qy < py as int implies img.spec_pixel(
                    g_col * cw + qx,
                    g_row * ch + qy,
                ) == recolor(
                    #[trigger] glyph_pixel(font@, cw, ch, v, qx, qy),
                    primary,
                    secondary,
                ) by {}
                assert forall|qx: int|
                    0 <= qx < px as int + 1 implies img.spec_pixel(
                    g_col * cw + qx,
                    g_row * ch + py as int,
                ) == recolor(
                    #[trigger] glyph_pixel(font@, cw, ch, v, qx, py as int),
                    primary,
                    secondary,
                ) by {}
            }
            px = px + 1;
        }
        proof {
            assert forall|qx: int, qy: int|
                0 <= qx < cw && 0 <= qy < py as int + 1 implies img.spec_pixel(
                g_col * cw + qx,
                g_row * ch + qy,
            ) == recolor(
                #[trigger] glyph_pixel(font@, cw, ch, v, qx, qy),
                primary,
                secondary,
            ) by {}
            assert forall|x: int, y: int|
                0 <= x < orig.width as int && 0 <= y < orig.height as int && !(g_col * cw <= x
                    < g_col * cw + cw && g_row * ch <= y < g_row * ch + py as int + 1) implies img
                .spec_pixel(x, y) == orig.spec_pixel(x, y) by {}
        }
        py = py + 1;
    }
}

impl Mat {
    /// Decodes a mat image back into its byte buffer.  The layout is
    /// re-derived from the image alone: `dim = width / char_width`, the ink
    /// reference color is sampled from the image, and one byte is read per
    /// cell in spiral order.  An image whose dimensions are not exact
    /// multiples of the cell size is rejected, never truncated.
    pub fn decode(&self, img: &Raster) -> (r: Result<Vec<u8>, MatError>)
        requires
            self.wf(),
            img.wf(),
        ensures
            match r {
                Ok(out) => {
                    &&& geometry_ok(*img, self.char_width as int, self.char_height as int)
                    &&& out@ == decode_output(
                        *img,
                        self.char_width as int,
                        self.char_height as int,
                    )
                },
                Err(e) => {
                    &&& e == MatError::GeometryMismatch
                    &&& !geometry_ok(*img, self.char_width as int, self.char_height as int)
                },
            },
    {
        let ghost cw = self.char_width as int;
        let ghost ch = self.char_height as int;
        if img.width % self.char_width != 0 || img.height % self.char_height != 0 || img.width
            / self.char_width != img.height / self.char_height {
            return Err(MatError::GeometryMismatch);
        }
        let dim: u32 = img.width / self.char_width;
        let ghost g_dim = dim as int;
        let mut out: Vec<u8> = Vec::new();
        if dim == 0 {
            proof {
                crate::spiral::lemma_spiral_len(0);
                assert(out@ =~= decode_output(*img, cw, ch));
            }
            return Ok(out);
        }
        proof {
            vstd::arithmetic::div_mod::lemma_fundamental_div_mod(img.width as int, cw);
            vstd::arithmetic::div_mod::lemma_fundamental_div_mod(img.height as int, ch);
            assert(img.width as int == g_dim * cw && img.height as int == g_dim * ch)
                by (nonlinear_arith)
                requires
                    img.width as int == cw * g_dim + 0 && img.height as int == ch * g_dim + 0,
            ;
            assert(cw <= g_dim * cw && ch <= g_dim * ch) by (nonlinear_arith)
                requires
                    g_dim >= 1 && cw >= 1 && ch >= 1,
            ;
        }
        let primary = img.get_pixel(self.char_width / 2, self.char_height / 2);
        let path = spiral_walker(dim);
        let mut i: usize = 0;
        while i < path.len()
            invariant
                self.wf(),
                img.wf(),
                cw == self.char_width as int,
                ch == self.char_height as int,
                1 <= g_dim <= u32::MAX as int,
                img.width as int == g_dim * cw,
                img.height as int == g_dim * ch,
                path@ == spiral_spec(g_dim),
                path@.len() == g_dim * g_dim,
                primary == sampled_primary(*img, cw, ch),
                i <= path@.len(),
                out@.len() == i as int,
                forall|ii: int|
                    0 <= ii < i as int ==> out@[ii] == decode_cell(
                        *img,
                        cw,
                        ch,
                        (#[trigger] path@[ii]).0 as int,
                        path@[ii].1 as int,
                        primary,
                    ),
            decreases path@.len() - i,
        {
            let pos = path[i];
            let col = pos.0;
            let row = pos.1;
            proof {
                lemma_spiral_in_range(g_dim, i as int);
                assert(col as int * cw + cw <= g_dim * cw && row as int * ch + ch <= g_dim * ch)
                    by (nonlinear_arith)
                    requires
                        0 <= (col as int) < g_dim && 0 <= (row as int) < g_dim && cw >= 1 && ch
                            >= 1,
                ;
            }
            let x0: u32 = col * self.char_width;
            let y0: u32 = row * self.char_height;
            let mut left: u8 = 0;
            let mut right: u8 = 0;
            let l1 = img.get_pixel(x0 + 1, y0);
            let l2 = img.get_pixel(x0 + 1, y0 + 1);
            let l4 = img.get_pixel(x0 + 1, y0 + self.char_height - 2);
            let l8 = img.get_pixel(x0 + 1, y0 + self.char_height - 1);
            let r1 = img.get_pixel(x0 + self.char_width - 2, y0);
            let r2 = img.get_pixel(x0 + self.char_width - 2, y0 + 1);
            let r4 = img.get_pixel(x0 + self.char_width - 2, y0 + self.char_height - 2);
            let r8 = img.get_pixel(x0 + self.char_width - 2, y0 + self.char_height - 1);
            if l1.0 == primary.0 && l1.1 == primary.1 && l1.2 == primary.2 {
                left = left + 1;
            }
            if l2.0 == primary.0 && l2.1 == primary.1 && l2.2 == primary.2 {
                left = left + 2;
            }
            if l4.0 == primary.0 && l4.1 == primary.1 && l4.2 == primary.2 {
                left = left + 4;
            }
            if l8.0 == primary.0 && l8.1 == primary.1 && l8.2 == primary.2 {
                left = left + 8;
            }
            if r1.0 == primary.0 && r1.1 == primary.1 && r1.2 == primary.2 {
                right = right + 1;
            }
            if r2.0 == primary.0 && r2.1 == primary.1 && r2.2 == primary.2 {
                right = right + 2;
            }
            if r4.0 == primary.0 && r4.1 == primary.1 && r4.2 == primary.2 {
                right = right + 4;
            }
            if r8.0 == primary.0 && r8.1 == primary.1 && r8.2 == primary.2 {
                right = right + 8;
            }
            let byte: u8 = left * 16 + right;
            proof {
                assert(byte == decode_cell(*img, cw, ch, col as int, row as int, primary));
            }
            out.push(byte);
            i = i + 1;
        }
        proof {
            assert(out@ =~= decode_output(*img, cw, ch));
        }
        Ok(out)
    }

    /// Decodes a mat image and stores the layout it derived: the mat
    /// dimension and the two reference colors sampled from the image (black
    /// for an empty image).  The font, input and name are untouched.
    pub fn read(&mut self, img: &Raster) -> (r: Result<Vec<u8>, MatError>)
        requires
            old(self).wf(),
            img.wf(),
        ensures
            final(self).wf(),
            final(self).font@ == old(self).font@,
            final(self).char_width == old(self).char_width,
            final(self).char_height == old(self).char_height,
            final(self).input@ == old(self).input@,
            final(self).name@ == old(self).name@,
            match r {
                Ok(out) => {
                    let cw = old(self).char_width as int;
                    let ch = old(self).char_height as int;
                    let dim = img.width as int / cw;
                    &&& geometry_ok(*img, cw, ch)
                    &&& out@ == decode_output(*img, cw, ch)
                    &&& final(self).dim as int == dim
                    &&& (dim >= 1 ==> final(self).primary == sampled_primary(*img, cw, ch)
                        && final(self).secondary == sampled_secondary(*img))
                    &&& (dim == 0 ==> final(self).primary == (0u8, 0u8, 0u8)
                        && final(self).secondary == (0u8, 0u8, 0u8))
                },
                Err(e) => {
                    &&& e == MatError::GeometryMismatch
                    &&& !geometry_ok(*img, old(self).char_width as int, old(self).char_height as int)
                    &&& *final(self) == *old(self)
                },
            },
    {
        let ghost cw = self.char_width as int;
        let ghost ch = self.char_height as int;
        let decoded = self.decode(img);
        match decoded {
            Ok(out) => {
                let dim: u32 = img.width / self.char_width;
                self.dim = dim;
                if dim >= 1 {
                    proof {
                        vstd::arithmetic::div_mod::lemma_fundamental_div_mod(img.width as int, cw);
                        vstd::arithmetic::div_mod::lemma_fundamental_div_mod(
                            img.height as int,
                            ch,
                        );
                        assert(cw <= cw * (dim as int) && ch <= ch * (dim as int))
                            by (nonlinear_arith)
                            requires
                                dim as int >= 1 && cw >= 1 && ch >= 1,
                        ;
                    }
                    self.primary = img.get_pixel(self.char_width / 2, self.char_height / 2);
                    self.secondary = img.get_pixel(1, 2);
                } else {
                    self.primary = (0, 0, 0);
                    self.secondary = (0, 0, 0);
                }
                Ok(out)
            },
            Err(e) => Err(e),
        }
    }

    /// Encodes the loaded input as a mat image: pads the input with spaces
    /// to fill a `dim × dim` grid, `dim = ceil(sqrt(len))`, and places the
    /// recolored glyph of padded byte `i` at the `i`-th cell of the spiral
    /// order.  Empty input is a no-op and yields no image.
    pub fn export(&self) -> (r: Option<Raster>)
        requires
            self.wf(),
            mat_dim_spec(self.input@.len() as int) * (self.char_width as int) * (mat_dim_spec(
                self.input@.len() as int,
            ) * (self.char_height as int)) <= usize::MAX as int,
        ensures
            match r {
                None => self.input@.len() == 0,
                Some(img) => self.input@.len() > 0 && export_image(*self, img),
            },
    {
        let ghost g_len = self.input@.len() as int;
        let ghost cw = self.char_width as int;
        let ghost ch = self.char_height as int;
        if self.input.len() == 0 {
            return None;
        }
        let dim = mat_dim(self.input.len());
        let ghost g_dim = dim as int;
        proof {
            lemma_mat_dim_spec(g_len, g_dim);
            assert(g_dim >= 1) by (nonlinear_arith)
                requires
                    g_dim >= 0 && g_dim * g_dim >= g_len && g_len >= 1,
            ;
            assert(g_dim <= 0x10000) by (nonlinear_arith)
                requires
                    g_dim >= 1 && (g_dim - 1) * (g_dim - 1) < 0x100000000,
            ;
            assert(g_dim * cw <= 0x4000000 && g_dim * ch <= 0x4000000) by (nonlinear_arith)
                requires
                    0 <= g_dim <= 0x10000 && 0 <= cw <= 1024 && 0 <= ch <= 1024,
            ;
            assert(g_dim * g_dim <= (g_dim * cw) * (g_dim * ch)) by (nonlinear_arith)
                requires
                    g_dim >= 0 && cw >= 1 && ch >= 1,
            ;
        }
        let width: u32 = dim * self.char_width;
        let height: u32 = dim * self.char_height;
        let mut img = Raster::new_filled(width, height, (0, 0, 0));
        let path = spiral_walker(dim);
        let total: usize = (dim as usize) * (dim as usize);
        let mut padded: Vec<u8> = Vec::new();
        let mut i: usize = 0;
        while i < self.input.len()
            invariant
                i <= self.input@.len(),
                padded@ == self.input@.subrange(0, i as int),
            decreases self.input@.len() - i,
        {
            padded.push(self.input[i]);
            proof {
                assert(padded@ =~= self.input@.subrange(0, i as int + 1));
            }
            i = i + 1;
        }
        proof {
            assert(padded@ =~= self.input@);
        }
        while padded.len() < total
            invariant
                total == g_dim * g_dim,
                self.input@.len() <= total,
                self.input@.len() <= padded@.len() <= total,
                padded@.subrange(0, self.input@.len() as int) =~= self.input@,
                forall|j: int|
                    self.input@.len() <= j < padded@.len() ==> padded@[j] == 0x20u8,
            decreases total - padded@.len(),
        {
            padded.push(0x20);
            proof {
                assert(padded@.subrange(0, self.input@.len() as int) =~= self.input@);
            }
        }
        proof {
            assert(padded@ =~= padded_input(self.input@, g_dim));
        }
        let mut i: usize = 0;
        while i < total
            invariant
                self.wf(),
                g_len == self.input@.len() as int,
                cw == self.char_width as int,
                ch == self.char_height as int,
                g_dim == mat_dim_spec(g_len),
                1 <= g_dim <= 0x10000,
                total == g_dim * g_dim,
                i <= total,
                path@ == spiral_spec(g_dim),
                path@.len() == total,
                padded@ == padded_input(self.input@, g_dim),
                padded@.len() == total,
                img.wf(),
                img.width as int == g_dim * cw,
                img.height as int == g_dim * ch,
                forall|ii: int|
                    0 <= ii < i as int ==> cell_shows_glyph(
                        img,
                        cw,
                        ch,
                        (#[trigger] path@[ii]).0 as int,
                        path@[ii].1 as int,
                        self.font@,
                        padded@[ii],
                        self.primary,
                        self.secondary,
                    ),
            decreases total - i,
        {
            let pos = path[i];
            let col = pos.0;
            let row = pos.1;
            let v = padded[i];
            proof {
                lemma_spiral_in_range(g_dim, i as int);
                assert(col as int * cw + cw <= g_dim * cw && row as int * ch + ch <= g_dim * ch)
                    by (nonlinear_arith)
                    requires
                        (col as int) < g_dim && (row as int) < g_dim && cw >= 1 && ch >= 1 && col
                            as int >= 0 && row as int >= 0,
                ;
            }
            let ghost before = img;
            blit_cell(
                &mut img,
                &self.font,
                self.char_width,
                self.char_height,
                col,
                row,
                v,
                self.primary,
                self.secondary,
            );
            proof {
                assert forall|ii: int| 0 <= ii < i as int implies cell_shows_glyph(
                    img,
                    cw,
                    ch,
                    (#[trigger] path@[ii]).0 as int,
                    path@[ii].1 as int,
                    self.font@,
                    padded@[ii],
                    self.primary,
                    self.secondary,
                ) by {
                    lemma_spiral_in_range(g_dim, ii);
                    lemma_spiral_injective(g_dim, ii, i as int);
                    let c2 = path@[ii].0 as int;
                    let r2 = path@[ii].1 as int;
                    let v2 = padded@[ii];
                    assert forall|px: int, py: int| 0 <= px < cw && 0 <= py < ch implies img
                        .spec_pixel(c2 * cw + px, r2 * ch + py) == recolor(
                        #[trigger] glyph_pixel(self.font@, cw, ch, v2, px, py),
                        self.primary,
                        self.secondary,
                    ) by {
                        let x = c2 * cw + px;
                        let y = r2 * ch + py;
                        assert(0 <= x && x < g_dim * cw && c2 * cw + cw <= g_dim * cw)
                            by (nonlinear_arith)
                            requires
                                0 <= c2 < g_dim && 0 <= px < cw && x == c2 * cw + px && cw >= 1,
                        ;
                        assert(0 <= y && y < g_dim * ch && r2 * ch + ch <= g_dim * ch)
                            by (nonlinear_arith)
                            requires
                                0 <= r2 < g_dim && 0 <= py < ch && y == r2 * ch + py && ch >= 1,
                        ;
                        if col as int * cw <= x < col as int * cw + cw && row as int * ch <= y
                            < row as int * ch + ch {
                            lemma_cell_coord(cw, c2, px);
                            lemma_cell_coord(cw, col as int, x - col as int * cw);
                            lemma_cell_coord(ch, r2, py);
                            lemma_cell_coord(ch, row as int, y - row as int * ch);
                            assert(false);
                        }
                        assert(img.spec_pixel(x, y) == before.spec_pixel(x, y));
                    }
                }
            }
            i = i + 1;
        }
        proof {
            assert(export_image(*self, img));
        }
        Some(img)
    }
}

/// The ink reference color decode reads off an image: the pixel at the
/// center of the top-left cell.
pub open spec fn sampled_primary(img: Raster, cw: int, ch: int) -> (u8, u8, u8) {
    img.spec_pixel(cw / 2, ch / 2)
}

/// The background reference color decode reads off an image: the pixel at
/// `(1, 2)`, inside the top-left cell.
pub open spec fn sampled_secondary(img: Raster) -> (u8, u8, u8) {
    img.spec_pixel(1, 2)
}

/// The sample at `(x, y)` reads as ink when it equals the primary color.
pub open spec fn ink_at(img: Raster, x: int, y: int, primary: (u8, u8, u8)) -> bool {
    img.spec_pixel(x, y) == primary
}

/// One nibble of a cell at `(x0, y0)`: the four samples in pixel column
/// `x0 + x_off`, at cell rows `{0, 1, ch-2, ch-1}`, carry bit weights
/// `{1, 2, 4, 8}`.
pub open spec fn nibble_at(
    img: Raster,
    x0: int,
    y0: int,
    ch: int,
    x_off: int,
    primary: (u8, u8, u8),
) -> int {
    (if ink_at(img, x0 + x_off, y0, primary) {
        1int
    } else {
        0int
    }) + (if ink_at(img, x0 + x_off, y0 + 1, primary) {
        2int
    } else {
        0int
    }) + (if ink_at(img, x0 + x_off, y0 + ch - 2, primary) {
        4int
    } else {
        0int
    }) + (if ink_at(img, x0 + x_off, y0 + ch - 1, primary) {
        8int
    } else {
        0int
    })
}

/// The byte reconstructed from cell `(col, row)`: the left sample column
/// (x offset 1) builds the high nibble, the right one (x offset `cw - 2`)
/// the low nibble.
pub open spec fn decode_cell(
    img: Raster,
    cw: int,
    ch: int,
    col: int,
    row: int,
    primary: (u8, u8, u8),
) -> u8 {
    let x0 = col * cw;
    let y0 = row * ch;
    (nibble_at(img, x0, y0, ch, 1, primary) * 16 + nibble_at(img, x0, y0, ch, cw - 2, primary)) as u8
}

/// Decode accepts an image whose dimensions are exact multiples of the
/// cell size and agree on the cell count.
pub open spec fn geometry_ok(img: Raster, cw: int, ch: int) -> bool {
    &&& img.width as int % cw == 0
    &&& img.height as int % ch == 0
    &&& img.width as int / cw == img.height as int / ch
}

/// Everything decode returns for `img`: one byte per cell, cells taken in
/// spiral order, each reconstructed against the image's own sampled
/// primary color.
pub open spec fn decode_output(img: Raster, cw: int, ch: int) -> Seq<u8> {
    let dim = img.width as int / cw;
    Seq::new(
        (dim * dim) as nat,
        |i: int|
            decode_cell(
                img,
                cw,
                ch,
                spiral_spec(dim)[i].0 as int,
                spiral_spec(dim)[i].1 as int,
                sampled_primary(img, cw, ch),
            ),
    )
}

/// The glyph for byte `v` carries `v` in its corner samples: a sample
/// pixel is full ink `(0xff, 0xff, 0xff)` exactly when the corresponding
/// bit of `v` is set — left column (x offset 1), rows `{0, 1, ch-2, ch-1}`,
/// for bits 4 to 7; right column (x offset `cw - 2`), same rows, for bits
/// 0 to 3.  The cell center is ink (the decoder's primary reference) and
/// pixel `(1, 2)` is background (its secondary reference).
pub open spec fn glyph_encodes(font: Seq<Rgb>, cw: int, ch: int, v: u8) -> bool {
    let ink = (0xffu8, 0xffu8, 0xffu8);
    &&& (glyph_pixel(font, cw, ch, v, 1, 0) == ink <==> (v as int / 16) % 2 == 1)
    &&& (glyph_pixel(font, cw, ch, v, 1, 1) == ink <==> (v as int / 32) % 2 == 1)
    &&& (glyph_pixel(font, cw, ch, v, 1, ch - 2) == ink <==> (v as int / 64) % 2 == 1)
    &&& (glyph_pixel(font, cw, ch, v, 1, ch - 1) == ink <==> (v as int / 128) % 2 == 1)
    &&& (glyph_pixel(font, cw, ch, v, cw - 2, 0) == ink <==> (v as int) % 2 == 1)
    &&& (glyph_pixel(font, cw, ch, v, cw - 2, 1) == ink <==> (v as int / 2) % 2 == 1)
    &&& (glyph_pixel(font, cw, ch, v, cw - 2, ch - 2) == ink <==> (v as int / 4) % 2 == 1)
    &&& (glyph_pixel(font, cw, ch, v, cw - 2, ch - 1) == ink <==> (v as int / 8) % 2 == 1)
    &&& glyph_pixel(font, cw, ch, v, cw / 2, ch / 2) == ink
    &&& glyph_pixel(font, cw, ch, v, 1, 2) != ink
}

/// Every glyph of the font encodes its byte value.
pub open spec fn font_encodes(font: Seq<Rgb>, cw: int, ch: int) -> bool {
    forall|v: u8| #[trigger] glyph_encodes(font, cw, ch, v)
}

/// With the background the complement of the ink color, a recolored pixel
/// equals the ink color exactly when the glyph pixel was full ink.
proof fn lemma_recolor_ink(p: Rgb, primary: (u8, u8, u8), secondary: (u8, u8, u8))
    requires
        secondary == complement(primary),
    ensures
        (recolor(p, primary, secondary) == primary) <==> (p == (0xffu8, 0xffu8, 0xffu8)),
{
}

/// A nibble is its binary decomposition.
proof fn lemma_nibble_decomp(h: int)
    requires
        0 <= h < 16,
    ensures
        h % 2 + 2 * ((h / 2) % 2) + 4 * ((h / 4) % 2) + 8 * ((h / 8) % 2) == h,
{
}

/// A cell that shows the recolored glyph of `v` decodes back to `v`.
#[verifier::rlimit(60)]
proof fn lemma_cell_decodes(
    img: Raster,
    cw: int,
    ch: int,
    col: int,
    row: int,
    font: Seq<Rgb>,
    v: u8,
    primary: (u8, u8, u8),
    secondary: (u8, u8, u8),
)
    requires
        4 <= cw,
        4 <= ch,
        col >= 0,
        row >= 0,
        secondary == complement(primary),
        glyph_encodes(font, cw, ch, v),
        cell_shows_glyph(img, cw, ch, col, row, font, v, primary, secondary),
    ensures
        decode_cell(img, cw, ch, col, row, primary) == v,
{
    let x0 = col * cw;
    let y0 = row * ch;
    let ink = (0xffu8, 0xffu8, 0xffu8);
    assert(img.spec_pixel(col * cw + 1, row * ch + 0) == recolor(
        glyph_pixel(font, cw, ch, v, 1, 0),
        primary,
        secondary,
    ));
    assert(img.spec_pixel(col * cw + 1, row * ch + 1) == recolor(
        glyph_pixel(font, cw, ch, v, 1, 1),
        primary,
        secondary,
    ));
    assert(img.spec_pixel(col * cw + 1, row * ch + (ch - 2)) == recolor(
        glyph_pixel(font, cw, ch, v, 1, ch - 2),
        primary,
        secondary,
    ));
    assert(img.spec_pixel(col * cw + 1, row * ch + (ch - 1)) == recolor(
        glyph_pixel(font, cw, ch, v, 1, ch - 1),
        primary,
        secondary,
    ));
    assert(img.spec_pixel(col * cw + (cw - 2), row * ch + 0) == recolor(
        glyph_pixel(font, cw, ch, v, cw - 2, 0),
        primary,
        secondary,
    ));
    assert(img.spec_pixel(col * cw + (cw - 2), row * ch + 1) == recolor(
        glyph_pixel(font, cw, ch, v, cw - 2, 1),
        primary,
        secondary,
    ));
    assert(img.spec_pixel(col * cw + (cw - 2), row * ch + (ch - 2)) == recolor(
        glyph_pixel(font, cw, ch, v, cw - 2, ch - 2),
        primary,
        secondary,
    ));
    assert(img.spec_pixel(col * cw + (cw - 2), row * ch + (ch - 1)) == recolor(
        glyph_pixel(font, cw, ch, v, cw - 2, ch - 1),
        primary,
        secondary,
    ));
    lemma_recolor_ink(glyph_pixel(font, cw, ch, v, 1, 0), primary, secondary);
    lemma_recolor_ink(glyph_pixel(font, cw, ch, v, 1, 1), primary, secondary);
    lemma_recolor_ink(glyph_pixel(font, cw, ch, v, 1, ch - 2), primary, secondary);
    lemma_recolor_ink(glyph_pixel(font, cw, ch, v, 1, ch - 1), primary, secondary);
    lemma_recolor_ink(glyph_pixel(font, cw, ch, v, cw - 2, 0), primary, secondary);
    lemma_recolor_ink(glyph_pixel(font, cw, ch, v, cw - 2, 1), primary, secondary);
    lemma_recolor_ink(glyph_pixel(font, cw, ch, v, cw - 2, ch - 2), primary, secondary);
    lemma_recolor_ink(glyph_pixel(font, cw, ch, v, cw - 2, ch - 1), primary, secondary);
    let n = v as int;
    vstd::arithmetic::div_mod::lemma_div_denominator(n, 16, 2);
    vstd::arithmetic::div_mod::lemma_div_denominator(n, 16, 4);
    vstd::arithmetic::div_mod::lemma_div_denominator(n, 16, 8);
    assert(n / 32 == (n / 16) / 2 && n / 64 == (n / 16) / 4 && n / 128 == (n / 16) / 8);
    lemma_nibble_decomp(n / 16);
    assert(nibble_at(img, x0, y0, ch, 1, primary) == n / 16);
    vstd::arithmetic::div_mod::lemma_div_denominator(n, 2, 2);
    vstd::arithmetic::div_mod::lemma_div_denominator(n, 2, 4);
    assert(n / 4 == (n / 2) / 2);
    let low = n % 16;
    assert(low % 2 == n % 2 && (low / 2) % 2 == (n / 2) % 2 && (low / 4) % 2 == (n / 4) % 2 && (low
        / 8) % 2 == (n / 8) % 2);
    lemma_nibble_decomp(low);
    assert(nibble_at(img, x0, y0, ch, cw - 2, primary) == low);
    vstd::arithmetic::div_mod::lemma_fundamental_div_mod(n, 16);
    assert((n / 16) * 16 + n % 16 == n);
}

/// Every non-negative number has a ceiling square root: the chosen mat
/// dimension is well defined.
pub proof fn lemma_ceil_sqrt_exists(n: int)
    requires
        n >= 0,
    ensures
        is_ceil_sqrt(n, mat_dim_spec(n)),
    decreases n,
{
    if n == 0 {
        assert(is_ceil_sqrt(0, 0));
    } else {
        lemma_ceil_sqrt_exists(n - 1);
        let d = mat_dim_spec(n - 1);
        if d * d >= n {
            assert(is_ceil_sqrt(n, d));
        } else {
            assert((d + 1) * (d + 1) >= n) by (nonlinear_arith)
                requires
                    d >= 0 && d * d >= n - 1,
            ;
            assert(is_ceil_sqrt(n, d + 1));
        }
        assert(exists|dd: int| is_ceil_sqrt(n, dd));
    }
}

/// `export`'s contract pins every pixel of the canvas: each pixel lies in
/// the cell that the spiral visits at `spiral_index_of`, and shows the
/// matching pixel of that cell's recolored glyph.
pub proof fn lemma_export_pins_every_pixel(m: Mat, img: Raster, x: int, y: int)
    requires
        m.wf(),
        export_image(m, img),
        0 <= x < img.width as int,
        0 <= y < img.height as int,
    ensures
        ({
            let cw = m.char_width as int;
            let ch = m.char_height as int;
            let dim = mat_dim_spec(m.input@.len() as int);
            img.spec_pixel(x, y) == recolor(
                glyph_pixel(
                    m.font@,
                    cw,
                    ch,
                    padded_input(m.input@, dim)[crate::spiral::spiral_index_of(
                        dim,
                        x / cw,
                        y / ch,
                    )],
                    x % cw,
                    y % ch,
                ),
                m.primary,
                m.secondary,
            )
        }),
{
    let cw = m.char_width as int;
    let ch = m.char_height as int;
    let len = m.input@.len() as int;
    lemma_ceil_sqrt_exists(len);
    let dim = mat_dim_spec(len);
    assert(dim >= 1) by (nonlinear_arith)
        requires
            dim >= 0 && cw >= 1 && dim * cw > 0,
    ;
    assert(dim <= 0x10000) by (nonlinear_arith)
        requires
            dim >= 1 && (dim - 1) * (dim - 1) < 0x100000000,
    ;
    let col = x / cw;
    let row = y / ch;
    let px = x % cw;
    let py = y % ch;
    vstd::arithmetic::div_mod::lemma_fundamental_div_mod(x, cw);
    vstd::arithmetic::div_mod::lemma_fundamental_div_mod(y, ch);
    assert(col < dim) by (nonlinear_arith)
        requires
            x < dim * cw && x == cw * col + px && 0 <= px < cw && cw >= 1 && col >= 0,
    ;
    assert(row < dim) by (nonlinear_arith)
        requires
            y < dim * ch && y == ch * row + py && 0 <= py < ch && ch >= 1 && row >= 0,
    ;
    crate::spiral::lemma_spiral_covers(dim, col, row);
    let i = crate::spiral::spiral_index_of(dim, col, row);
    assert(cell_shows_glyph(
        img,
        cw,
        ch,
        col,
        row,
        m.font@,
        padded_input(m.input@, dim)[i],
        m.primary,
        m.secondary,
    ));
    assert(img.spec_pixel(col * cw + px, row * ch + py) == recolor(
        glyph_pixel(m.font@, cw, ch, padded_input(m.input@, dim)[i], px, py),
        m.primary,
        m.secondary,
    ));
    assert(col * cw + px == x && row * ch + py == y);
}

/// Round trip: what `export` wrote, `decode` reads back.  For any mat
/// image of `m` — with a font whose glyphs encode their byte values and a
/// background color that is the complement of the ink color, as `input`
/// sets it — the decoder accepts the image's geometry and returns exactly
/// the space-padded input; in particular, the first `len` decoded bytes
/// are the input itself, so padding only ever adds trailing spaces.
pub proof fn lemma_round_trip(m: Mat, img: Raster)
    requires
        m.wf(),
        m.input@.len() > 0,
        font_encodes(m.font@, m.char_width as int, m.char_height as int),
        m.secondary == complement(m.primary),
        export_image(m, img),
    ensures
        geometry_ok(img, m.char_width as int, m.char_height as int),
        decode_output(img, m.char_width as int, m.char_height as int) == padded_input(
            m.input@,
            mat_dim_spec(m.input@.len() as int),
        ),
        decode_output(img, m.char_width as int, m.char_height as int).subrange(
            0,
            m.input@.len() as int,
        ) == m.input@,
{
    let cw = m.char_width as int;
    let ch = m.char_height as int;
    let len = m.input@.len() as int;
    lemma_ceil_sqrt_exists(len);
    let dim = mat_dim_spec(len);
    let padded = padded_input(m.input@, dim);
    assert(dim >= 1) by (nonlinear_arith)
        requires
            dim >= 0 && dim * dim >= len && len >= 1,
    ;
    assert(dim <= 0x10000) by (nonlinear_arith)
        requires
            dim >= 1 && (dim - 1) * (dim - 1) < 0x100000000,
    ;
    assert(len <= dim * dim);
    assert(padded.len() == dim * dim);
    vstd::arithmetic::div_mod::lemma_fundamental_div_mod_converse(dim * cw, cw, dim, 0);
    vstd::arithmetic::div_mod::lemma_fundamental_div_mod_converse(dim * ch, ch, dim, 0);
    assert(geometry_ok(img, cw, ch));
    crate::spiral::lemma_spiral_len(dim);
    assert(dim - 1 < dim * dim) by (nonlinear_arith)
        requires
            dim >= 1,
    ;
    crate::spiral::lemma_spiral_top_row(dim, dim - 1);
    assert(spiral_spec(dim)[dim - 1] == ((0u32, 0u32)));
    let v0 = padded[dim - 1];
    assert(cell_shows_glyph(img, cw, ch, 0, 0, m.font@, v0, m.primary, m.secondary));
    assert(glyph_encodes(m.font@, cw, ch, v0));
    assert(img.spec_pixel(0 * cw + cw / 2, 0 * ch + ch / 2) == recolor(
        glyph_pixel(m.font@, cw, ch, v0, cw / 2, ch / 2),
        m.primary,
        m.secondary,
    ));
    assert(sampled_primary(img, cw, ch) == m.primary);
    let out = decode_output(img, cw, ch);
    assert(img.width as int / cw == dim);
    assert(out.len() == dim * dim);
    assert forall|i: int| 0 <= i < dim * dim implies out[i] == padded[i] by {
        lemma_spiral_in_range(dim, i);
        let col = spiral_spec(dim)[i].0 as int;
        let row = spiral_spec(dim)[i].1 as int;
        let v = padded[i];
        assert(cell_shows_glyph(img, cw, ch, col, row, m.font@, v, m.primary, m.secondary));
        assert(glyph_encodes(m.font@, cw, ch, v));
        lemma_cell_decodes(img, cw, ch, col, row, m.font@, v, m.primary, m.secondary);
    }
    assert(out =~= padded);
    assert(out.subrange(0, len) =~= m.input@);
}

/// Reads one font pixel.
fn font_pixel(font: &Vec<Rgb>, idx: usize) -> (p: Rgb)
    requires
        idx < font@.len(),
    ensures
        p == font@[idx as int],
{
    font[idx]
}

} // verus!
