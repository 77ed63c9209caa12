//! Embedding of a byte payload into the pixels of an RGBA image, and its recovery.
//!
//! The payload is first packed into a square grid of superpixels: a fixed 3x3 target
//! pattern in the top left corner, then the length-prefixed bytes as 6-bit symbols, laid
//! out in a corner spiral. Each superpixel is then baked into a block of image pixels.

use vstd::arithmetic::div_mod::{lemma_fundamental_div_mod, lemma_fundamental_div_mod_converse};
use vstd::prelude::*;

verus! {

/// Symbol carried by one superpixel.
#[derive(Debug, Copy, Clone, Hash, PartialEq, Eq, Structural)]
pub enum Superpixel {
    Ignore,
    Black,
    White,
    /// A 6-bit value, 0 to 63.
    Value(u8),
}

/// Failures of reading a payload back.
#[derive(Debug, Copy, Clone, Hash, PartialEq, Eq, Structural)]
pub enum Error {
    NoTargetFound,
    SuperpixelGridNotSquare,
    InvalidDimensions,
    InvalidLength { encoded: u16, available: u16 },
}

/// A square grid of superpixels, ready to be baked into an image. Cells are held in
/// row-major order; the payload itself runs through them in a corner spiral.
#[derive(Debug, Clone, Hash, Eq)]
pub struct Payload {
    width: u8,
    data: Vec<Superpixel>,
}

/// One RGBA pixel.
#[derive(Debug, Copy, Clone, Hash, PartialEq, Eq, Structural, PartialOrd, Ord)]
pub struct Pixel {
    pub r: u8,
    pub g: u8,
    pub b: u8,
    pub a: u8,
}

/// An RGBA image: its width and height, and its pixels in row-major order.
#[derive(Debug, Clone, Hash, Eq, PartialOrd, Ord)]
pub struct Image {
    width: u32,
    height: u32,
    pixels: Vec<Pixel>,
}

// Layout of the grid: the corner spiral and the target.

/// Row-major index of the `j`-th cell of ring `r` of the corner spiral in a grid of side
/// `w`. Ring `r` runs down column `r` from the top to the diagonal, then leftwards along
/// row `r`.
pub open spec fn spiral_cell(w: int, r: int, j: int) -> int {
    if j <= r {
        j * w + r
    } else {
        r * w + (2 * r - j)
    }
}

/// Position in the corner spiral of the cell at (`row`, `column`).
pub open spec fn spiral_position(row: int, column: int) -> int {
    if row <= column {
        column * column + row
    } else {
        row * row + 2 * row - column
    }
}

/// The cells of ring `r`, in spiral order.
pub open spec fn ring(w: int, cells: Seq<Superpixel>, r: int) -> Seq<Superpixel> {
    Seq::new((2 * r + 1) as nat, |j: int| cells[spiral_cell(w, r, j)])
}

/// The cells of the first `n` rings, in spiral order.
pub open spec fn spiral(w: int, cells: Seq<Superpixel>, n: int) -> Seq<Superpixel>
    decreases n,
{
    if n <= 0 {
        Seq::empty()
    } else {
        spiral(w, cells, n - 1) + ring(w, cells, n - 1)
    }
}

/// The 3x3 target in row-major order.
pub open spec fn target_row_major(i: int) -> Superpixel {
    if i == 0 || i == 2 || i == 5 || i == 6 || i == 7 || i == 8 {
        Superpixel::Black
    } else {
        Superpixel::White
    }
}

/// The 3x3 target in spiral order.
pub open spec fn target_spiral(k: int) -> Superpixel {
    if k == 0 || k >= 4 {
        Superpixel::Black
    } else {
        Superpixel::White
    }
}

/// Whether the top left 3x3 block of a grid of side `w` holds the target.
pub open spec fn has_target(w: int, cells: Seq<Superpixel>) -> bool {
    &&& w >= 3
    &&& forall|row: int, column: int|
        0 <= row < 3 && 0 <= column < 3 ==> #[trigger] cells[row * w + column] == target_row_major(
            row * 3 + column,
        )
}

// Packing bytes into symbols and back.

/// The buffer with its length in front, as two big-endian bytes.
pub open spec fn length_prefixed(bytes: Seq<u8>) -> Seq<u8> {
    seq![(bytes.len() / 256) as u8, (bytes.len() % 256) as u8] + bytes
}

/// Byte `i` of `s`, or zero past its end.
pub open spec fn byte_or_zero(s: Seq<u8>, i: int) -> int {
    if 0 <= i < s.len() {
        s[i] as int
    } else {
        0
    }
}

/// Symbol `k` of the 6-bit stream that packs `s`: every three bytes, the last group
/// padded with zeros, give four symbols of six bits, most significant first.
pub open spec fn packed_symbol(s: Seq<u8>, k: int) -> u8 {
    let c = k / 4;
    let b0 = byte_or_zero(s, 3 * c);
    let b1 = byte_or_zero(s, 3 * c + 1);
    let b2 = byte_or_zero(s, 3 * c + 2);
    let t = k % 4;
    (if t == 0 {
        b0 / 4
    } else if t == 1 {
        (b0 % 4) * 16 + b1 / 16
    } else if t == 2 {
        (b1 % 16) * 4 + b2 / 64
    } else {
        b2 % 64
    }) as u8
}

/// Number of symbols that pack `n` bytes.
pub open spec fn symbol_count(n: int) -> int {
    4 * ((n + 2) / 3)
}

/// Number of cells a buffer of `len` bytes takes: the target, then its symbols.
pub open spec fn cell_count(len: int) -> int {
    9 + symbol_count(len + 2)
}

/// Whether `w` is the side of the grid that holds `n` cells: the smallest square that
/// holds them, but no wider than 255.
pub open spec fn fits_width(w: int, n: int) -> bool {
    &&& 1 <= w <= 255
    &&& (w - 1) * (w - 1) < n
    &&& (w == 255 || n <= w * w)
}

/// Cell `k`, in spiral order, of the grid that encodes `bytes`: the target, the
/// symbols of the length-prefixed buffer, then `Ignore`.
pub open spec fn encoded_cell(bytes: Seq<u8>, k: int) -> Superpixel {
    let p = length_prefixed(bytes);
    if k < 9 {
        target_spiral(k)
    } else if k - 9 < symbol_count(p.len() as int) {
        Superpixel::Value(packed_symbol(p, k - 9))
    } else {
        Superpixel::Ignore
    }
}

/// The 6-bit number of symbol `k`, or zero past the end.
pub open spec fn symbol_or_zero(syms: Seq<Superpixel>, k: int) -> int {
    if 0 <= k < syms.len() {
        symbol_value(syms[k]) as int
    } else {
        0
    }
}

/// Byte `i` unpacked from a symbol stream: every four symbols, the last group padded
/// with zeros, give three bytes.
pub open spec fn unpacked_byte(syms: Seq<Superpixel>, i: int) -> u8 {
    let c = i / 3;
    let s0 = symbol_or_zero(syms, 4 * c);
    let s1 = symbol_or_zero(syms, 4 * c + 1);
    let s2 = symbol_or_zero(syms, 4 * c + 2);
    let s3 = symbol_or_zero(syms, 4 * c + 3);
    let t = i % 3;
    (if t == 0 {
        s0 * 4 + s1 / 16
    } else if t == 1 {
        (s1 % 16) * 16 + s2 / 4
    } else {
        (s2 % 4) * 64 + s3
    }) as u8
}

pub open spec fn unpacked(syms: Seq<Superpixel>) -> Seq<u8> {
    Seq::new((3 * ((syms.len() + 3) / 4)) as nat, |i: int| unpacked_byte(syms, i))
}

/// The bytes a spiral of cells decodes to: the cells after the target are unpacked,
/// and the first two bytes give how many of the rest belong to the payload.
pub open spec fn decoded(cells: Seq<Superpixel>) -> Result<Seq<u8>, Error> {
    if cells.len() <= 9 {
        Err(Error::InvalidDimensions)
    } else {
        let stream = unpacked(cells.subrange(9, cells.len() as int));
        let length = stream[0] as int * 256 + stream[1] as int;
        let available = stream.len() - 2;
        if length > available {
            Err(Error::InvalidLength { encoded: length as u16, available: available as u16 })
        } else {
            Ok(stream.subrange(2, 2 + length))
        }
    }
}

/// Cells that stand for the same numbers as the encoding of `bytes`, from the end of
/// the target to the end of its symbols.
#[verifier::opaque]
pub open spec fn agrees_with_encoding(cells: Seq<Superpixel>, bytes: Seq<u8>) -> bool {
    &&& cells.len() >= cell_count(bytes.len() as int)
    &&& forall|k: int|
        9 <= k < cell_count(bytes.len() as int) ==> symbol_value(#[trigger] cells[k])
            == symbol_value(encoded_cell(bytes, k))
}

// What baking does to pixels, and how pixels read back.

/// The 2-bit affinity bucket of a channel value: which sixteenth of its quarter of the
/// range it lies in.
pub open spec fn affinity_of(x: u8) -> u8 {
    ((x as int / 16) % 4) as u8
}

/// Candidate channel value for an affinity within quadrant `q` of the range.
pub open spec fn center(affinity: u8, q: int) -> int {
    64 * q + 8 + 16 * affinity
}

pub open spec fn distance(a: int, b: int) -> int {
    if a >= b { a - b } else { b - a }
}

/// The first quadrant whose center is nearest to `x`.
pub open spec fn nearest_quadrant(affinity: u8, x: u8) -> int {
    let d0 = distance(center(affinity, 0), x as int);
    let d1 = distance(center(affinity, 1), x as int);
    let d2 = distance(center(affinity, 2), x as int);
    let d3 = distance(center(affinity, 3), x as int);
    if d0 <= d1 && d0 <= d2 && d0 <= d3 {
        0
    } else if d1 <= d2 && d1 <= d3 {
        1
    } else if d2 <= d3 {
        2
    } else {
        3
    }
}

/// The first of quadrants `0..n` whose center is nearest to `x`.
pub open spec fn nearest_quadrant_upto(affinity: u8, x: u8, n: int) -> int
    decreases n,
{
    if n <= 1 {
        0
    } else {
        let prev = nearest_quadrant_upto(affinity, x, n - 1);
        if distance(center(affinity, n - 1), x as int) < distance(center(affinity, prev), x as int) {
            n - 1
        } else {
            prev
        }
    }
}

/// `x` moved to the nearest value of the given affinity, pushed to the ends of the range
/// when it lands next to them.
pub open spec fn rounded_to_affinity(affinity: u8, x: u8) -> u8 {
    let c = center(affinity, nearest_quadrant(affinity, x));
    if c <= 8 {
        0
    } else if c >= 248 {
        255
    } else {
        c as u8
    }
}

pub open spec fn classify(p: Pixel) -> Superpixel {
    if p.r < 16 && p.g < 16 && p.b < 16 {
        Superpixel::Black
    } else if p.r > 239 && p.g > 239 && p.b > 239 {
        Superpixel::White
    } else {
        Superpixel::Value(
            (affinity_of(p.r) * 16 + affinity_of(p.g) * 4 + affinity_of(p.b)) as u8,
        )
    }
}

pub open spec fn with_value_spec(p: Pixel, value: u8) -> Pixel {
    Pixel {
        r: rounded_to_affinity(((value as int / 16) % 4) as u8, p.r),
        g: rounded_to_affinity(((value as int / 4) % 4) as u8, p.g),
        b: rounded_to_affinity((value as int % 4) as u8, p.b),
        a: if p.a < 25 { 25 } else { p.a },
    }
}

/// The 6-bit number a symbol stands for when the payload is decoded.
pub open spec fn symbol_value(s: Superpixel) -> u8 {
    match s {
        Superpixel::Ignore => 0,
        Superpixel::Black => 0,
        Superpixel::White => 63,
        Superpixel::Value(v) => (v as int % 64) as u8,
    }
}

pub open spec fn black_pixel() -> Pixel {
    Pixel { r: 0, g: 0, b: 0, a: 255 }
}

pub open spec fn white_pixel() -> Pixel {
    Pixel { r: 255, g: 255, b: 255, a: 255 }
}

/// What baking a superpixel does to one of its pixels.
pub open spec fn baked(p: Pixel, s: Superpixel) -> Pixel {
    match s {
        Superpixel::Ignore => p,
        Superpixel::Black => black_pixel(),
        Superpixel::White => white_pixel(),
        Superpixel::Value(v) => with_value_spec(p, v),
    }
}

/// The pixels of a `width` by `height` image after baking `payload` into them. Each
/// superpixel covers `width / side` by `height / side` pixels; pixels past the last
/// whole block belong to the last superpixel of their row or column.
pub open spec fn baked_pixels(before: Seq<Pixel>, width: int, height: int, payload: Payload) -> Seq<
    Pixel,
> {
    let side = payload.side();
    Seq::new(
        before.len(),
        |i: int|
            baked(
                before[i],
                payload@[payload.clamped_index((i % width) / (width / side), (i / width) / (height / side))],
            ),
    )
}

// Reading a grid back out of an image.

/// A pixel light enough to be the white of the target.
pub open spec fn is_white_mark(p: Pixel) -> bool {
    p.r > 235 && p.g > 235 && p.b > 235
}

/// A pixel dark enough to be the black of the target.
pub open spec fn is_black_mark(p: Pixel) -> bool {
    p.r < 20 && p.g < 20 && p.b < 20
}

/// Index of the first pixel from `from` on that is light (`white`) or dark.
pub open spec fn first_mark(s: Seq<Pixel>, from: int, white: bool) -> Option<int>
    decreases s.len() - from,
{
    if from < 0 || from >= s.len() {
        None
    } else if (if white { is_white_mark(s[from]) } else { is_black_mark(s[from]) }) {
        Some(from)
    } else {
        first_mark(s, from + 1, white)
    }
}

/// The superpixel size that a row or column of pixels shows: the offset from its first
/// light pixel to the first dark pixel after that one. The target starts black, white,
/// black, so the white superpixel lies between them.
pub open spec fn mark_size(s: Seq<Pixel>) -> Result<u32, Error> {
    match first_mark(s, 0, true) {
        None => Err(Error::NoTargetFound),
        Some(i0) => match first_mark(s, i0 + 1, false) {
            None => Err(Error::NoTargetFound),
            Some(i1) => Ok((i1 - i0) as u32),
        },
    }
}

/// Number of times `x` occurs in `s`.
#[verifier::opaque]
pub open spec fn count(s: Seq<Superpixel>, x: Superpixel) -> nat
    decreases s.len(),
{
    if s.len() == 0 {
        0
    } else {
        count(s.drop_last(), x) + if s.last() == x {
            1nat
        } else {
            0nat
        }
    }
}

/// `s[k]` is a most frequent symbol of `s`, and `k` the first place where any most
/// frequent symbol occurs.
pub open spec fn is_first_mode(s: Seq<Superpixel>, k: int) -> bool {
    &&& 0 <= k < s.len()
    &&& forall|i: int| 0 <= i < s.len() ==> count(s, #[trigger] s[i]) <= count(s, s[k])
    &&& forall|i: int| 0 <= i < k ==> count(s, #[trigger] s[i]) < count(s, s[k])
}

/// `x` is the most frequent symbol of `s`; of equally frequent ones, the first to occur.
pub open spec fn is_majority(s: Seq<Superpixel>, x: Superpixel) -> bool {
    exists|k: int| #[trigger] is_first_mode(s, k) && s[k] == x
}

/// Among the first `n` symbols of `s`, the first place where a most frequent one occurs.
pub open spec fn first_mode_upto(s: Seq<Superpixel>, n: int) -> int
    decreases n,
{
    if n <= 1 {
        0
    } else {
        let best = first_mode_upto(s, n - 1);
        if count(s, s[n - 1]) > count(s, s[best]) {
            n - 1
        } else {
            best
        }
    }
}

/// The most frequent symbol of a non-empty sequence; of equally frequent ones, the first
/// to occur.
pub open spec fn majority_of(s: Seq<Superpixel>) -> Superpixel {
    s[first_mode_upto(s, s.len() as int)]
}

/// The grid of side `side` whose cells are the majority readings of their pixels.
pub open spec fn reading_of(pixels: Seq<Pixel>, width: int, sw: int, sh: int, side: int) -> Seq<
    Superpixel,
> {
    Seq::new(
        (side * side) as nat,
        |k: int| majority_of(cell_classes(pixels, width, sw, sh, k % side, k / side)),
    )
}

/// Slot of a symbol in a table of counts.
pub open spec fn slot(s: Superpixel) -> int {
    match s {
        Superpixel::Value(v) => v as int,
        Superpixel::Black => 256,
        Superpixel::White => 257,
        Superpixel::Ignore => 258,
    }
}

/// What the pixels of the superpixel at (`x`, `y`) read as, row by row, when each
/// superpixel is `sw` by `sh` pixels.
pub open spec fn cell_classes(pixels: Seq<Pixel>, width: int, sw: int, sh: int, x: int, y: int) -> Seq<Superpixel> {
    Seq::new(
        (sw * sh) as nat,
        |t: int| classify(pixels[(y * sh + t / sw) * width + x * sw + t % sw]),
    )
}

/// What an image whose superpixels are `sw` by `sh` pixels reads as: the grid of side
/// `side` whose cells are the majority readings of their pixels, in row-major order.
pub open spec fn is_reading(cells: Seq<Superpixel>, pixels: Seq<Pixel>, width: int, sw: int, sh: int, side: int) -> bool {
    &&& cells.len() == side * side
    &&& forall|x: int, y: int|
        0 <= x < side && 0 <= y < side ==> is_majority(
            cell_classes(pixels, width, sw, sh, x, y),
            #[trigger] cells[y * side + x],
        )
}

/// Side of the grid that reading an image `width` pixels wide finds, when the payload
/// baked into it was `side` superpixels wide.
pub open spec fn read_side(width: int, side: int) -> int {
    width / (width / side)
}

impl View for Payload {
    type V = Seq<Superpixel>;

    /// The cells in row-major order.
    closed spec fn view(&self) -> Seq<Superpixel> {
        self.data@
    }
}

impl Payload {
    /// Side length of the grid.
    pub closed spec fn side(&self) -> int {
        self.width as int
    }

    /// The grid holds exactly `side * side` cells.
    pub open spec fn wf(&self) -> bool {
        self@.len() == self.side() * self.side()
    }

    /// The cells in corner-spiral order.
    pub open spec fn spiral_spec(&self) -> Seq<Superpixel> {
        spiral(self.side(), self@, self.side())
    }

    /// Side length of the grid.
    pub fn width(&self) -> (r: u8)
        ensures
            r == self.side(),
    {
        self.width
    }

    /// Pack a buffer into a grid: the target, the length prefixed bytes as 6-bit
    /// symbols, then `Ignore`, all in corner-spiral order. A grid is at most 255 wide, so
    /// the buffer may hold at most 48760 bytes.
    pub fn new(input: &[u8]) -> (r: Payload)
        requires
            cell_count(input@.len() as int) <= 65025,
        ensures
            r.wf(),
            cell_count(input@.len() as int) <= r.side() * r.side(),
            fits_width(r.side(), cell_count(input@.len() as int)),
            r.spiral_spec() == Seq::new(
                (r.side() * r.side()) as nat,
                |k: int| encoded_cell(input@, k),
            ),
            has_target(r.side(), r@),
    {
        let len = input.len();
        proof {
            assert(len <= 48760);
        }
        let mut prefixed: Vec<u8> = Vec::new();
        prefixed.push((len / 256) as u8);
        prefixed.push((len % 256) as u8);
        let mut i: usize = 0;
        while i < len
            invariant
                i <= len,
                len == input@.len(),
                prefixed@ == length_prefixed(input@).take(i + 2),
            decreases len - i,
        {
            prefixed.push(input[i]);
            proof {
                assert(prefixed@ =~= length_prefixed(input@).take(i + 3));
            }
            i = i + 1;
        }
        proof {
            assert(prefixed@ =~= length_prefixed(input@));
        }
        let n_symbols: usize = 4 * ((len + 4) / 3);
        let n_cells: usize = 9 + n_symbols;
        let mut w: usize = 1;
        let mut square: usize = 1;
        while w < 255 && square < n_cells
            invariant
                1 <= w <= 255,
                square == w * w,
                (w - 1) * (w - 1) < n_cells,
            decreases 255 - w,
        {
            proof {
                assert((w + 1) * (w + 1) == w * w + 2 * w + 1) by (nonlinear_arith);
                assert(w * w <= 65025) by (nonlinear_arith)
                    requires
                        w <= 255,
                ;
            }
            square = square + 2 * w + 1;
            w = w + 1;
        }
        let ghost content = Seq::new((w * w) as nat, |k: int| encoded_cell(input@, k));
        let mut data: Vec<Superpixel> = Vec::new();
        let mut row: usize = 0;
        while row < w
            invariant
                row <= w <= 255,
                n_symbols == symbol_count(prefixed@.len() as int),
                prefixed@ == length_prefixed(input@),
                data@.len() == row * w,
                forall|i: int, c: int|
                    0 <= i < row && 0 <= c < w ==> #[trigger] data@[i * w + c] == encoded_cell(
                        input@,
                        spiral_position(i, c),
                    ),
            decreases w - row,
        {
            let mut column: usize = 0;
            while column < w
                invariant
                    row < w <= 255,
                    column <= w,
                    n_symbols == symbol_count(prefixed@.len() as int),
                    prefixed@ == length_prefixed(input@),
                    data@.len() == row * w + column,
                    forall|i: int, c: int|
                        (0 <= i < row && 0 <= c < w) || (i == row && 0 <= c < column)
                            ==> #[trigger] data@[i * w + c] == encoded_cell(
                            input@,
                            spiral_position(i, c),
                        ),
                decreases w - column,
            {
                proof {
                    lemma_cell_in_grid(w as int, row as int, column as int);
                    assert(column * column <= 65025 && row * row <= 65025) by (nonlinear_arith)
                        requires
                            row < 255,
                            column < 255,
                    ;
                }
                let k: usize = if row <= column {
                    column * column + row
                } else {
                    row * row + 2 * row - column
                };
                let ghost before = data@;
                data.push(encoded_cell_at(&prefixed, n_symbols, k, Ghost(input@)));
                proof {
                    assert forall|i: int, c: int|
                        (0 <= i < row && 0 <= c < w) || (i == row && 0 <= c <= column)
                            implies #[trigger] data@[i * w + c] == encoded_cell(
                            input@,
                            spiral_position(i, c),
                        ) by {
                        if i < row {
                            assert(i * w + c < row * w) by (nonlinear_arith)
                                requires
                                    0 <= i < row,
                                    0 <= c < w,
                            ;
                            assert(data@[i * w + c] == before[i * w + c]);
                        } else if c < column {
                            assert(data@[i * w + c] == before[i * w + c]);
                        }
                    }
                }
                column = column + 1;
            }
            proof {
                assert((row + 1) * w == row * w + w) by (nonlinear_arith);
            }
            row = row + 1;
        }
        proof {
            lemma_square_bound(w as u8);
        }
        let payload = Payload { width: w as u8, data };
        proof {
            lemma_spiral_from_positions(w as int, data@, input@, w as int);
            assert(payload.spiral_spec() =~= content);
            assert(w >= 4) by (nonlinear_arith)
                requires
                    w == 255 || n_cells <= w * w,
                    n_cells >= 13,
            ;
            lemma_encoded_target(data@, input@, w as int);
        }
        payload
    }

    /// Read the bytes packed in this grid back out; a grid without the target holds none.
    pub fn data(&self) -> (r: Result<Vec<u8>, Error>)
        requires
            self.wf(),
        ensures
            !has_target(self.side(), self@) ==> r == Err::<Vec<u8>, Error>(Error::NoTargetFound),
            has_target(self.side(), self@) ==> {
                &&& r is Ok <==> decoded(self.spiral_spec()) is Ok
                &&& r is Ok ==> decoded(self.spiral_spec()) == Ok::<Seq<u8>, Error>(r->Ok_0@)
                &&& r is Err ==> decoded(self.spiral_spec()) == Err::<Seq<u8>, Error>(r->Err_0)
            },
    {
        if !target_present(self.width, &self.data) {
            return Err(Error::NoTargetFound);
        }
        let cells = self.unwrapped_payload();
        proof {
            lemma_spiral_len(self.side(), self@, self.side());
            lemma_square_bound(self.width);
        }
        if cells.len() <= 9 {
            return Err(Error::InvalidDimensions);
        }
        let ghost syms = cells@.subrange(9, cells@.len() as int);
        let m = cells.len() - 9;
        let n_chunks = (m + 3) / 4;
        let mut output: Vec<u8> = Vec::new();
        let mut c: usize = 0;
        while c < n_chunks
            invariant
                c <= n_chunks,
                n_chunks == (m + 3) / 4,
                m == cells@.len() - 9,
                cells@.len() <= 65025,
                syms == cells@.subrange(9, cells@.len() as int),
                output@ == unpacked(syms).take(3 * c),
            decreases n_chunks - c,
        {
            let s0 = symbol_at(&cells, 9 + 4 * c, Ghost(syms));
            let s1 = symbol_at(&cells, 9 + 4 * c + 1, Ghost(syms));
            let s2 = symbol_at(&cells, 9 + 4 * c + 2, Ghost(syms));
            let s3 = symbol_at(&cells, 9 + 4 * c + 3, Ghost(syms));
            output.push(s0 * 4 + s1 / 16);
            output.push((s1 % 16) * 16 + s2 / 4);
            output.push((s2 % 4) * 64 + s3);
            proof {
                assert forall|i: int| 3 * c <= i < 3 * c + 3 implies (i / 3 == c && #[trigger] (i % 3) == i - 3 * c) by {}
                assert(output@ =~= unpacked(syms).take(3 * c + 3));
            }
            c = c + 1;
        }
        proof {
            assert(output@ =~= unpacked(syms));
        }
        let length: usize = output[0] as usize * 256 + output[1] as usize;
        let available: usize = output.len() - 2;
        if length > available {
            return Err(Error::InvalidLength { encoded: length as u16, available: available as u16 });
        }
        let mut result: Vec<u8> = Vec::new();
        let mut i: usize = 0;
        while i < length
            invariant
                i <= length,
                length < 65536,
                length + 2 <= output@.len(),
                result@ == output@.subrange(2, 2 + i),
            decreases length - i,
        {
            result.push(output[2 + i]);
            proof {
                assert(result@ =~= output@.subrange(2, 2 + i + 1));
            }
            i = i + 1;
        }
        Ok(result)
    }

    /// The rows of the grid, top to bottom.
    pub fn rows(&self) -> (r: Vec<Vec<Superpixel>>)
        requires
            self.wf(),
        ensures
            r@.len() == self.side(),
            forall|i: int|
                0 <= i < self.side() ==> #[trigger] r@[i]@ == self@.subrange(
                    i * self.side(),
                    i * self.side() + self.side(),
                ),
    {
        let w = self.width as usize;
        let mut out: Vec<Vec<Superpixel>> = Vec::new();
        let mut i: usize = 0;
        while i < w
            invariant
                i <= w,
                w == self.side(),
                self.wf(),
                out@.len() == i,
                forall|k: int| 0 <= k < i ==> #[trigger] out@[k]@ == self@.subrange(k * w, k * w + w),
            decreases w - i,
        {
            let mut row: Vec<Superpixel> = Vec::new();
            let mut c: usize = 0;
            proof {
                assert((i + 1) * w <= w * w && i * w + w == (i + 1) * w) by (nonlinear_arith)
                    requires
                        i < w,
                ;
                assert(row@ =~= self@.subrange(i * w, i * w));
            }
            while c < w
                invariant
                    i < w <= 255,
                    c <= w,
                    w == self.side(),
                    self.wf(),
                    i * w + w <= w * w,
                    row@ == self@.subrange(i * w, i * w + c),
                decreases w - c,
            {
                proof {
                    lemma_cell_in_grid(w as int, i as int, c as int);
                }
                row.push(self.data[i * w + c]);
                proof {
                    assert(row@ =~= self@.subrange(i * w, i * w + c + 1));
                }
                c = c + 1;
            }
            out.push(row);
            i = i + 1;
        }
        out
    }

    /// The columns of the grid, left to right, each from top to bottom.
    pub fn columns(&self) -> (r: Vec<Vec<Superpixel>>)
        requires
            self.wf(),
        ensures
            r@.len() == self.side(),
            forall|c: int|
                0 <= c < self.side() ==> #[trigger] r@[c]@ == Seq::new(
                    self.side() as nat,
                    |i: int| self@[i * self.side() + c],
                ),
    {
        let w = self.width as usize;
        let mut out: Vec<Vec<Superpixel>> = Vec::new();
        let mut c: usize = 0;
        while c < w
            invariant
                c <= w,
                w == self.side(),
                self.wf(),
                out@.len() == c,
                forall|k: int|
                    0 <= k < c ==> #[trigger] out@[k]@ == Seq::new(w as nat, |i: int| self@[i * w + k]),
            decreases w - c,
        {
            let column = self.column(c);
            out.push(column);
            c = c + 1;
        }
        out
    }

    /// Column `index` of the grid, from top to bottom; past the right edge, the last one.
    fn column(&self, index: usize) -> (r: Vec<Superpixel>)
        requires
            self.wf(),
            self.side() > 0,
        ensures
            r@ == Seq::new(
                self.side() as nat,
                |i: int| self@[i * self.side() + if index >= self.side() { self.side() - 1 } else { index as int }],
            ),
    {
        let w = self.width as usize;
        let index = if index >= w { w - 1 } else { index };
        let mut out: Vec<Superpixel> = Vec::new();
        let mut i: usize = 0;
        while i < w
            invariant
                i <= w <= 255,
                index < w,
                w == self.side(),
                self.wf(),
                out@ == Seq::new(i as nat, |k: int| self@[k * w + index]),
            decreases w - i,
        {
            proof {
                lemma_cell_in_grid(w as int, i as int, index as int);
            }
            out.push(self.data[i * w + index]);
            proof {
                assert(out@ =~= Seq::new((i + 1) as nat, |k: int| self@[k * w + index]));
            }
            i = i + 1;
        }
        out
    }

    /// Replace row `index` of the grid; past the bottom edge, the last one.
    pub fn rows_mut(&mut self, index: usize, values: &Vec<Superpixel>)
        requires
            old(self).wf(),
            old(self).side() > 0,
            values@.len() == old(self).side(),
        ensures
            final(self).wf(),
            final(self).side() == old(self).side(),
            forall|i: int|
                0 <= i < old(self)@.len() ==> #[trigger] final(self)@[i] == if i / old(self).side() == (if index >= old(self).side() { old(self).side() - 1 } else { index as int }) {
                    values@[i % old(self).side()]
                } else {
                    old(self)@[i]
                },
    {
        let w = self.width as usize;
        let row = if index >= w { w - 1 } else { index };
        let mut c: usize = 0;
        while c < w
            invariant
                c <= w <= 255,
                row < w,
                w == self.side(),
                w == old(self).side(),
                old(self)@.len() == w * w,
                values@.len() == w,
                self.wf(),
                forall|i: int|
                    0 <= i < old(self)@.len() ==> #[trigger] self@[i] == if i / (w as int) == row as int && i % (w as int) < c {
                        values@[i % (w as int)]
                    } else {
                        old(self)@[i]
                    },
            decreases w - c,
        {
            proof {
                lemma_cell_in_grid(w as int, row as int, c as int);
                lemma_fundamental_div_mod_converse((row * w + c) as int, w as int, row as int, c as int);
            }
            let ghost before = self@;
            self.data.set(row * w + c, values[c]);
            proof {
                assert forall|i: int| 0 <= i < old(self)@.len() implies #[trigger] self@[i] == if i / (w as int) == row as int && i % (w as int) < c + 1 {
                    values@[i % (w as int)]
                } else {
                    old(self)@[i]
                } by {
                    lemma_fundamental_div_mod(i, w as int);
                    if i / (w as int) == row as int && i % (w as int) == c as int {
                        assert(i == row * w + c) by (nonlinear_arith)
                            requires
                                i == (w as int) * (i / (w as int)) + i % (w as int),
                                i / (w as int) == row as int,
                                i % (w as int) == c as int,
                        ;
                    }
                    if i != row * w + c {
                        assert(self@[i] == before[i]);
                    }
                }
            }
            c = c + 1;
        }
    }

    /// Replace column `index` of the grid; past the right edge, the last one.
    pub fn column_mut(&mut self, index: usize, values: &Vec<Superpixel>)
        requires
            old(self).wf(),
            old(self).side() > 0,
            values@.len() == old(self).side(),
        ensures
            final(self).wf(),
            final(self).side() == old(self).side(),
            forall|i: int|
                0 <= i < old(self)@.len() ==> #[trigger] final(self)@[i] == if i % old(self).side() == (if index >= old(self).side() { old(self).side() - 1 } else { index as int }) {
                    values@[i / old(self).side()]
                } else {
                    old(self)@[i]
                },
    {
        let w = self.width as usize;
        let column = if index >= w { w - 1 } else { index };
        let mut r: usize = 0;
        while r < w
            invariant
                r <= w <= 255,
                column < w,
                w == self.side(),
                w == old(self).side(),
                old(self)@.len() == w * w,
                values@.len() == w,
                self.wf(),
                forall|i: int|
                    0 <= i < old(self)@.len() ==> #[trigger] self@[i] == if i % (w as int) == column as int && i / (w as int) < r {
                        values@[i / (w as int)]
                    } else {
                        old(self)@[i]
                    },
            decreases w - r,
        {
            proof {
                lemma_cell_in_grid(w as int, r as int, column as int);
                lemma_fundamental_div_mod_converse((r * w + column) as int, w as int, r as int, column as int);
            }
            let ghost before = self@;
            self.data.set(r * w + column, values[r]);
            proof {
                assert forall|i: int| 0 <= i < old(self)@.len() implies #[trigger] self@[i] == if i % (w as int) == column as int && i / (w as int) < r + 1 {
                    values@[i / (w as int)]
                } else {
                    old(self)@[i]
                } by {
                    lemma_fundamental_div_mod(i, w as int);
                    if i / (w as int) == r as int && i % (w as int) == column as int {
                        assert(i == r * w + column) by (nonlinear_arith)
                            requires
                                i == (w as int) * (i / (w as int)) + i % (w as int),
                                i / (w as int) == r as int,
                                i % (w as int) == column as int,
                        ;
                    }
                    if i != r * w + column {
                        assert(self@[i] == before[i]);
                    }
                }
            }
            r = r + 1;
        }
        proof {
            assert forall|i: int| 0 <= i < old(self)@.len() implies #[trigger] self@[i] == if i % (w as int) == column as int {
                values@[i / (w as int)]
            } else {
                old(self)@[i]
            } by {
                lemma_fundamental_div_mod(i, w as int);
                assert(i / (w as int) < w) by (nonlinear_arith)
                    requires
                        i == (w as int) * (i / (w as int)) + i % (w as int),
                        i % (w as int) >= 0,
                        i < w * w,
                        w > 0,
                ;
            }
        }
    }

    /// Replace cell `k` of the corner spiral, handing back the one it held.
    pub fn unwrapped_payload_mut(&mut self, k: usize, value: Superpixel) -> (r: Superpixel)
        requires
            old(self).wf(),
            k < old(self).side() * old(self).side(),
        ensures
            r == old(self).spiral_spec()[k as int],
            final(self).wf(),
            final(self).side() == old(self).side(),
            final(self).spiral_spec() == old(self).spiral_spec().update(k as int, value),
    {
        let w = self.width as usize;
        let mut radius: usize = 0;
        proof {
            lemma_square_bound(self.width);
        }
        let mut next_square: usize = 1;
        while radius + 1 < w && next_square <= k
            invariant
                radius * radius <= k,
                k < w * w,
                radius < w <= 255,
                next_square == (radius + 1) * (radius + 1),
            decreases w - radius,
        {
            proof {
                assert((radius + 2) * (radius + 2) == (radius + 1) * (radius + 1) + 2 * radius + 3)
                    by (nonlinear_arith);
                assert((radius + 2) * (radius + 2) <= 65025) by (nonlinear_arith)
                    requires
                        radius + 2 <= 255,
                ;
            }
            next_square = next_square + 2 * radius + 3;
            radius = radius + 1;
        }
        proof {
            assert((radius + 1) * (radius + 1) <= 65025) by (nonlinear_arith)
                requires
                    radius + 1 <= 255,
            ;
        }
        let j = k - radius * radius;
        proof {
            assert(j <= 2 * radius) by (nonlinear_arith)
                requires
                    j == k - radius * radius,
                    k < (radius + 1) * (radius + 1),
            ;
        }
        proof {
            if j <= radius {
                lemma_cell_in_grid(w as int, j as int, radius as int);
            } else {
                lemma_cell_in_grid(w as int, radius as int, (2 * radius - j) as int);
            }
        }
        let index = if j <= radius { j * w + radius } else { radius * w + (2 * radius - j) };
        proof {
            lemma_spiral_len(w as int, self@, w as int);
            lemma_spiral_index(w as int, self@, w as int, radius as int, j as int);
        }
        let previous = self.data[index];
        let ghost before = self@;
        self.data.set(index, value);
        proof {
            lemma_spiral_update(w as int, before, index as int, value, radius as int, j as int);
        }
        previous
    }

    /// A payload made of the given cells, in row-major order; the target is not checked.
    pub fn from_cells(width: u8, data: Vec<Superpixel>) -> (r: Result<Payload, Error>)
        ensures
            data@.len() == width as int * width as int <==> r is Ok,
            r is Ok ==> r->Ok_0.side() == width && r->Ok_0@ == data@ && r->Ok_0.wf(),
            r is Err ==> r->Err_0 == Error::InvalidDimensions,
    {
        proof {
            lemma_square_bound(width);
        }
        if data.len() != width as usize * width as usize {
            Err(Error::InvalidDimensions)
        } else {
            Ok(Payload { width, data })
        }
    }

    /// A payload made of the given cells, in row-major order, which must show the target.
    fn from_raw(width: u8, data: Vec<Superpixel>) -> (r: Result<Payload, Error>)
        ensures
            r == (if data@.len() != width as int * width as int {
                Err::<Payload, Error>(Error::InvalidDimensions)
            } else if !has_target(width as int, data@) {
                Err(Error::NoTargetFound)
            } else {
                Ok(Payload { width, data })
            }),
    {
        let w = width as usize;
        proof {
            lemma_square_bound(width);
        }
        if data.len() != w * w {
            return Err(Error::InvalidDimensions);
        }
        if !target_present(width, &data) {
            return Err(Error::NoTargetFound);
        }
        Ok(Payload { width, data })
    }

    /// Row-major index of the cell at (`x`, `y`), each clamped to the last column or row.
    pub open spec fn clamped_index(&self, x: int, y: int) -> int {
        let last = self.side() - 1;
        (if y > last { last } else { y }) * self.side() + (if x > last { last } else { x })
    }

    /// The superpixel at column `x`, row `y`; past an edge, the last one in that direction.
    pub fn get_superpixel(&self, x: usize, y: usize) -> (r: Superpixel)
        requires
            self.wf(),
            self.side() > 0,
        ensures
            r == self@[self.clamped_index(x as int, y as int)],
    {
        let w = self.width as usize;
        let x = if x >= w { w - 1 } else { x };
        let y = if y >= w { w - 1 } else { y };
        proof {
            lemma_cell_in_grid(w as int, y as int, x as int);
        }
        self.data[y * w + x]
    }

    /// Replace the superpixel at column `x`, row `y` (each clamped to the grid), handing
    /// back the one it held.
    pub fn get_superpixel_mut(&mut self, x: usize, y: usize, value: Superpixel) -> (r: Superpixel)
        requires
            old(self).wf(),
            old(self).side() > 0,
        ensures
            r == old(self)@[old(self).clamped_index(x as int, y as int)],
            final(self).side() == old(self).side(),
            final(self).wf(),
            final(self)@ == old(self)@.update(old(self).clamped_index(x as int, y as int), value),
    {
        let w = self.width as usize;
        let x = if x >= w { w - 1 } else { x };
        let y = if y >= w { w - 1 } else { y };
        proof {
            lemma_cell_in_grid(w as int, y as int, x as int);
        }
        let previous = self.data[y * w + x];
        self.data.set(y * w + x, value);
        previous
    }

    /// The cells in corner-spiral order, starting at the top left:
    /// ```text
    /// 0  1  4  9
    /// 3  2  5  10
    /// 8  7  6  11
    /// 15 14 13 12
    /// ```
    pub fn unwrapped_payload(&self) -> (r: Vec<Superpixel>)
        requires
            self.wf(),
        ensures
            r@ == self.spiral_spec(),
    {
        let w = self.width as usize;
        let mut output: Vec<Superpixel> = Vec::new();
        let mut radius: usize = 0;
        while radius < w
            invariant
                radius <= w,
                w == self.side(),
                self.data@.len() == w * w,
                output@ == spiral(w as int, self@, radius as int),
            decreases w - radius,
        {
            let mut row: usize = 0;
            while row <= radius
                invariant
                    radius < w,
                    row <= radius + 1,
                    w == self.side(),
                    self.data@.len() == w * w,
                    output@ == spiral(w as int, self@, radius as int) + ring(
                        w as int,
                        self@,
                        radius as int,
                    ).take(row as int),
                decreases radius + 1 - row,
            {
                proof {
                    lemma_cell_in_grid(w as int, row as int, radius as int);
                }
                output.push(self.data[row * w + radius]);
                proof {
                    assert(output@ =~= spiral(w as int, self@, radius as int) + ring(
                        w as int,
                        self@,
                        radius as int,
                    ).take(row + 1));
                }
                row = row + 1;
            }
            let mut column: usize = radius;
            while column > 0
                invariant
                    radius < w,
                    column <= radius,
                    w == self.side(),
                    self.data@.len() == w * w,
                    output@ == spiral(w as int, self@, radius as int) + ring(
                        w as int,
                        self@,
                        radius as int,
                    ).take(2 * radius + 1 - column),
                decreases column,
            {
                column = column - 1;
                proof {
                    lemma_cell_in_grid(w as int, radius as int, column as int);
                }
                output.push(self.data[radius * w + column]);
                proof {
                    assert(output@ =~= spiral(w as int, self@, radius as int) + ring(
                        w as int,
                        self@,
                        radius as int,
                    ).take(2 * radius + 1 - column));
                }
            }
            proof {
                assert(ring(w as int, self@, radius as int).take(2 * radius + 1) =~= ring(
                    w as int,
                    self@,
                    radius as int,
                ));
            }
            radius = radius + 1;
        }
        output
    }
}

impl View for Image {
    type V = Seq<Pixel>;

    closed spec fn view(&self) -> Seq<Pixel> {
        self.pixels@
    }
}

impl Image {
    /// Width and height in pixels.
    pub closed spec fn size(&self) -> (u32, u32) {
        (self.width, self.height)
    }

    /// As many pixels as the dimensions call for.
    pub open spec fn wf(&self) -> bool {
        self@.len() == self.size().0 as int * self.size().1 as int
    }

    /// Make an image of the given width and height from its pixels.
    pub fn new(dimensions: (u32, u32), pixels: Vec<Pixel>) -> (r: Image)
        requires
            pixels@.len() == dimensions.0 as int * dimensions.1 as int,
        ensures
            r.size() == dimensions,
            r@ == pixels@,
            r.wf(),
    {
        Image { width: dimensions.0, height: dimensions.1, pixels }
    }

    pub fn dimensions(&self) -> (r: (u32, u32))
        ensures
            r == self.size(),
    {
        (self.width, self.height)
    }

    pub fn pixels(&self) -> (r: &[Pixel])
        ensures
            r@ == self@,
    {
        self.pixels.as_slice()
    }

    /// The first row of pixels.
    pub open spec fn first_row(&self) -> Seq<Pixel> {
        self@.take(if self.size().0 as int <= self@.len() { self.size().0 as int } else { self@.len() as int })
    }

    /// The first column of pixels.
    pub open spec fn first_column(&self) -> Seq<Pixel> {
        Seq::new(self.size().1 as nat, |y: int| self@[y * self.size().0])
    }

    /// Width in pixels of a superpixel, as the target in the first row shows it.
    pub fn superpixel_width(&self) -> (r: Result<u32, Error>)
        requires
            self.wf(),
        ensures
            r == mark_size(self.first_row()),
    {
        let n: usize = if (self.width as usize) <= self.pixels.len() {
            self.width as usize
        } else {
            self.pixels.len()
        };
        let ghost row = self.first_row();
        let mut first_white: Option<usize> = None;
        let mut i: usize = 0;
        while i < n
            invariant
                i <= n,
                n == row.len(),
                row == self@.take(n as int),
                row == self.first_row(),
                n <= self@.len(),
                n <= self.size().0,
                first_white is None ==> first_mark(row, 0, true) == first_mark(row, i as int, true),
                first_white matches Some(i0) ==> i0 < i && first_mark(row, 0, true) == Some(i0 as int)
                    && first_mark(row, i0 + 1, false) == first_mark(row, i as int, false),
            decreases n - i,
        {
            let pixel = self.pixels[i];
            assert(row[i as int] == pixel);
            match first_white {
                None => {
                    if pixel.r > 235 && pixel.b > 235 && pixel.g > 235 {
                        first_white = Some(i);
                    }
                },
                Some(i0) => {
                    if pixel.r < 20 && pixel.b < 20 && pixel.g < 20 {
                        return Ok((i - i0) as u32);
                    }
                },
            }
            i = i + 1;
        }
        Err(Error::NoTargetFound)
    }

    /// Height in pixels of a superpixel, as the target in the first column shows it.
    pub fn superpixel_height(&self) -> (r: Result<u32, Error>)
        requires
            self.wf(),
        ensures
            self.size().0 > 0 ==> r == mark_size(self.first_column()),
            self.size().0 == 0 ==> r == Err::<u32, Error>(Error::NoTargetFound),
    {
        if self.width == 0 {
            return Err(Error::NoTargetFound);
        }
        let ghost column = self.first_column();
        let w = self.width as usize;
        let h = self.height as usize;
        let len = self.pixels.len();
        let mut first_white: Option<usize> = None;
        let mut y: usize = 0;
        while y < h
            invariant
                len == self@.len(),
                y <= h,
                h == self.size().1,
                w == self.size().0,
                w > 0,
                self.wf(),
                column == self.first_column(),
                first_white is None ==> first_mark(column, 0, true) == first_mark(column, y as int, true),
                first_white matches Some(y0) ==> y0 < y && first_mark(column, 0, true) == Some(y0 as int)
                    && first_mark(column, y0 + 1, false) == first_mark(column, y as int, false),
            decreases h - y,
        {
            proof {
                lemma_cell_in_grid_wide(h as int, w as int, y as int);
            }
            let pixel = self.pixels[y * w];
            assert(column[y as int] == pixel);
            match first_white {
                None => {
                    if pixel.r > 235 && pixel.b > 235 && pixel.g > 235 {
                        first_white = Some(y);
                    }
                },
                Some(y0) => {
                    if pixel.r < 20 && pixel.b < 20 && pixel.g < 20 {
                        return Ok((y - y0) as u32);
                    }
                },
            }
            y = y + 1;
        }
        Err(Error::NoTargetFound)
    }

    /// Height in pixels of a superpixel as `superpixel_height` finds it.
    pub open spec fn mark_height(&self) -> Result<u32, Error> {
        if self.size().0 > 0 {
            mark_size(self.first_column())
        } else {
            Err(Error::NoTargetFound)
        }
    }

    /// Superpixel width and height, and the side of the grid, that the target shows;
    /// or why none can be had.
    pub open spec fn geometry(&self) -> Result<(int, int, int), Error> {
        match mark_size(self.first_row()) {
            Err(e) => Err(e),
            Ok(sw) => match self.mark_height() {
                Err(e) => Err(e),
                Ok(sh) => if sw == 0 || sh == 0 {
                    Err(Error::NoTargetFound)
                } else if self.size().0 / sw != self.size().1 / sh {
                    Err(Error::SuperpixelGridNotSquare)
                } else if self.size().0 / sw > 255 {
                    Err(Error::InvalidDimensions)
                } else {
                    Ok((sw as int, sh as int, (self.size().0 / sw) as int))
                },
            },
        }
    }

    /// Read a payload out of this image: find the superpixel size from the target, read
    /// each superpixel as the majority of its pixels, and check the target.
    pub fn read_payload(&self) -> (r: Result<Payload, Error>)
        requires
            self.wf(),
        ensures
            self.geometry() is Err ==> r == Err::<Payload, Error>(self.geometry()->Err_0),
            self.geometry() is Ok ==> ({
                let (sw, sh, side) = self.geometry()->Ok_0;
                forall|cells: Seq<Superpixel>|
                    #[trigger] is_reading(cells, self@, self.size().0 as int, sw, sh, side) ==> {
                        &&& (r is Ok <==> has_target(side, cells))
                        &&& r is Ok ==> r->Ok_0@ == cells && r->Ok_0.side() == side && r->Ok_0.wf()
                        &&& r is Err ==> r->Err_0 == Error::NoTargetFound
                    }
            }),
    {
        let sw = match self.superpixel_width() {
            Ok(v) => v,
            Err(e) => {
                return Err(e);
            },
        };
        let sh = match self.superpixel_height() {
            Ok(v) => v,
            Err(e) => {
                return Err(e);
            },
        };
        if sw == 0 || sh == 0 {
            return Err(Error::NoTargetFound);
        }
        let horizontal = self.width / sw;
        let vertical = self.height / sh;
        if horizontal != vertical {
            return Err(Error::SuperpixelGridNotSquare);
        }
        if horizontal > 255 {
            return Err(Error::InvalidDimensions);
        }
        let side = horizontal as usize;
        let w = self.width as usize;
        let sw = sw as usize;
        let sh = sh as usize;
        proof {
            lemma_fundamental_div_mod(self.width as int, sw as int);
            lemma_fundamental_div_mod(self.height as int, sh as int);
            let hh = self.height as int;
            assert(side * sw <= w && side * sh <= hh) by (nonlinear_arith)
                requires
                    w as int == sw * side + (w as int) % (sw as int),
                    hh == sh * side + hh % (sh as int),
                    (w as int) % (sw as int) >= 0,
                    hh % (sh as int) >= 0,
            ;
        }
        let mut cells: Vec<Superpixel> = Vec::new();
        let mut y: usize = 0;
        while y < side
            invariant
                y <= side <= 255,
                self.wf(),
                w == self.size().0,
                side * sw <= w,
                side * sh <= self.size().1,
                sw > 0,
                sh > 0,
                cells@.len() == y * side,
                forall|x2: int, y2: int|
                    0 <= x2 < side && 0 <= y2 < y ==> is_majority(
                        cell_classes(self@, w as int, sw as int, sh as int, x2, y2),
                        #[trigger] cells@[y2 * side + x2],
                    ),
            decreases side - y,
        {
            let mut x: usize = 0;
            while x < side
                invariant
                    y < side <= 255,
                    x <= side,
                    self.wf(),
                    w == self.size().0,
                    side * sw <= w,
                    side * sh <= self.size().1,
                    sw > 0,
                    sh > 0,
                    cells@.len() == y * side + x,
                    forall|x2: int, y2: int|
                        (0 <= x2 < side && 0 <= y2 < y) || (y2 == y && 0 <= x2 < x) ==> is_majority(
                            cell_classes(self@, w as int, sw as int, sh as int, x2, y2),
                            #[trigger] cells@[y2 * side + x2],
                        ),
                decreases side - x,
            {
                let classes = self.cell_classes_at(x, y, sw, sh, side);
                proof {
                    assert(sw * sh > 0) by (nonlinear_arith)
                        requires
                            sw > 0,
                            sh > 0,
                    ;
                }
                let s = majority(&classes);
                let ghost before = cells@;
                cells.push(s);
                proof {
                    assert forall|x2: int, y2: int|
                        (0 <= x2 < side && 0 <= y2 < y) || (y2 == y && 0 <= x2 <= x) implies is_majority(
                            cell_classes(self@, w as int, sw as int, sh as int, x2, y2),
                            #[trigger] cells@[y2 * side + x2],
                        ) by {
                        if y2 < y {
                            assert(y2 * side + x2 < y * side) by (nonlinear_arith)
                                requires
                                    0 <= y2 < y,
                                    0 <= x2 < side,
                            ;
                            assert(cells@[y2 * side + x2] == before[y2 * side + x2]);
                        } else if x2 < x {
                            assert(cells@[y2 * side + x2] == before[y2 * side + x2]);
                        }
                    }
                }
                x = x + 1;
            }
            proof {
                assert((y + 1) * side == y * side + side) by (nonlinear_arith);
            }
            y = y + 1;
        }
        proof {
            let width = self.size().0 as int;
            assert forall|other: Seq<Superpixel>|
                #[trigger] is_reading(other, self@, width, sw as int, sh as int, side as int) implies other
                == cells@ by {
                assert forall|k: int| 0 <= k < other.len() implies other[k] == cells@[k] by {
                    lemma_fundamental_div_mod(k, side as int);
                    let y2 = k / side as int;
                    let x2 = k % side as int;
                    assert(y2 < side) by (nonlinear_arith)
                        requires
                            k == side * y2 + x2,
                            0 <= x2,
                            k < side * side,
                    ;
                    assert(k == y2 * side + x2);
                    lemma_majority_unique(
                        cell_classes(self@, width, sw as int, sh as int, x2, y2),
                        other[y2 * side + x2],
                        cells@[y2 * side + x2],
                    );
                }
                assert(other =~= cells@);
            }
        }
        Payload::from_raw(side as u8, cells)
    }

    /// What the pixels of the superpixel at (`x`, `y`) read as.
    fn cell_classes_at(&self, x: usize, y: usize, sw: usize, sh: usize, side: usize) -> (r: Vec<Superpixel>)
        requires
            self.wf(),
            x < side,
            y < side,
            side * sw <= self.size().0,
            side * sh <= self.size().1,
            sw > 0,
            sh > 0,
        ensures
            r@ == cell_classes(self@, self.size().0 as int, sw as int, sh as int, x as int, y as int),
    {
        let w = self.width as usize;
        let ghost target = cell_classes(self@, w as int, sw as int, sh as int, x as int, y as int);
        let len = self.pixels.len();
        let mut classes: Vec<Superpixel> = Vec::new();
        let mut sub_y: usize = 0;
        proof {
            assert(sw * sh >= 0) by (nonlinear_arith)
                requires
                    sw > 0,
                    sh > 0,
            ;
        }
        while sub_y < sh
            invariant
                sub_y <= sh,
                sh > 0,
                len == self@.len(),
                self.wf(),
                w == self.size().0,
                x < side,
                y < side,
                side * sw <= w,
                side * sh <= self.size().1,
                sw > 0,
                target == cell_classes(self@, w as int, sw as int, sh as int, x as int, y as int),
                target.len() == sw * sh,
                classes@ == target.take(sub_y * sw),
            decreases sh - sub_y,
        {
            let mut sub_x: usize = 0;
            while sub_x < sw
                invariant
                    sub_y < sh,
                    sh > 0,
                    sub_x <= sw,
                    len == self@.len(),
                    self.wf(),
                    w == self.size().0,
                    x < side,
                    y < side,
                    side * sw <= w,
                    side * sh <= self.size().1,
                    sw > 0,
                    target == cell_classes(self@, w as int, sw as int, sh as int, x as int, y as int),
                    target.len() == sw * sh,
                    classes@ == target.take(sub_y * sw + sub_x),
                decreases sw - sub_x,
            {
                proof {
                    lemma_block_index(
                        w as int,
                        self.size().1 as int,
                        sw as int,
                        sh as int,
                        side as int,
                        x as int,
                        y as int,
                        sub_x as int,
                        sub_y as int,
                    );
                    lemma_fundamental_div_mod_converse(
                        sub_y * sw + sub_x,
                        sw as int,
                        sub_y as int,
                        sub_x as int,
                    );
                }
                let row = y * sh + sub_y;
                let column = x * sw + sub_x;
                let p = self.pixels[row * w + column];
                classes.push(p.value());
                proof {
                    assert(classes@ =~= target.take(sub_y * sw + sub_x + 1));
                }
                sub_x = sub_x + 1;
            }
            proof {
                assert((sub_y + 1) * sw == sub_y * sw + sw) by (nonlinear_arith);
            }
            sub_y = sub_y + 1;
        }
        proof {
            assert(sh * sw == sw * sh) by (nonlinear_arith);
            assert(classes@ =~= target);
        }
        classes
    }

    /// Bake a payload into this image. Each superpixel covers a block of
    /// `width / side` by `height / side` pixels; pixels past the last whole block belong to
    /// the last superpixel of their row or column.
    pub fn bake_payload(&mut self, payload: &Payload)
        requires
            old(self).wf(),
            payload.wf(),
            payload.side() > 0,
            old(self).size().0 >= payload.side(),
            old(self).size().1 >= payload.side(),
        ensures
            final(self).size() == old(self).size(),
            final(self).wf(),
            final(self)@ == baked_pixels(
                old(self)@,
                old(self).size().0 as int,
                old(self).size().1 as int,
                *payload,
            ),
    {
        let superpixel_width = self.width / payload.width() as u32;
        let superpixel_height = self.height / payload.width() as u32;
        let width = self.width;
        let n = self.pixels.len();
        proof {
            lemma_div_at_least_one(self.width as int, payload.side());
            lemma_div_at_least_one(self.height as int, payload.side());
        }
        let mut i: usize = 0;
        while i < n
            invariant
                i <= n,
                n == self@.len(),
                n == old(self)@.len(),
                self.size() == old(self).size(),
                width == self.size().0,
                width > 0,
                superpixel_width == self.size().0 / payload.side() as u32,
                superpixel_height == self.size().1 / payload.side() as u32,
                superpixel_width > 0,
                superpixel_height > 0,
                payload.wf(),
                payload.side() > 0,
                forall|j: int| i <= j < n ==> self@[j] == old(self)@[j],
                forall|j: int|
                    0 <= j < i ==> #[trigger] self@[j] == baked(
                        old(self)@[j],
                        payload@[payload.clamped_index(
                            (j % width as int) / superpixel_width as int,
                            (j / width as int) / superpixel_height as int,
                        )],
                    ),
            decreases n - i,
        {
            let x = (i as u64 % width as u64) as usize;
            let y = (i as u64 / width as u64) as usize;
            let superpixel = payload.get_superpixel(
                x / superpixel_width as usize,
                y / superpixel_height as usize,
            );
            let pixel = self.pixels[i];
            let new_pixel = match superpixel {
                Superpixel::Ignore => pixel,
                Superpixel::Black => Pixel { r: 0, g: 0, b: 0, a: 255 },
                Superpixel::White => Pixel { r: 255, g: 255, b: 255, a: 255 },
                Superpixel::Value(value) => pixel.with_value(value),
            };
            self.pixels.set(i, new_pixel);
            i = i + 1;
        }
        proof {
            assert(self@ =~= baked_pixels(
                old(self)@,
                old(self).size().0 as int,
                old(self).size().1 as int,
                *payload,
            ));
        }
    }
}

impl Pixel {
    /// Bake a 6-bit value into this pixel: two bits in each colour channel, the alpha
    /// channel kept but raised to a floor so the pixel is never fully transparent.
    pub fn with_value(self, value: u8) -> (r: Pixel)
        ensures
            r == with_value_spec(self, value),
    {
        Pixel {
            r: round_to_affinity((value / 16) % 4, self.r),
            g: round_to_affinity((value / 4) % 4, self.g),
            b: round_to_affinity(value % 4, self.b),
            a: if self.a < 25 { 25 } else { self.a },
        }
    }

    /// The symbol this pixel reads as.
    pub fn value(self) -> (r: Superpixel)
        ensures
            r == classify(self),
    {
        if self.r < 16 && self.g < 16 && self.b < 16 {
            Superpixel::Black
        } else if self.r > 239 && self.g > 239 && self.b > 239 {
            Superpixel::White
        } else {
            let r = get_affinity(self.r);
            let g = get_affinity(self.g);
            let b = get_affinity(self.b);
            Superpixel::Value(r * 16 + g * 4 + b)
        }
    }
}

/// Cell `k` in spiral order of the grid that encodes the buffer whose length-prefixed
/// form is `prefixed`.
/// Whether the top left 3x3 block of a grid of side `width` holds the target.
impl PartialEq for Payload {
    fn eq(&self, other: &Payload) -> (r: bool) {
        self.width == other.width && same_cells(&self.data, &other.data)
    }
}

impl vstd::std_specs::cmp::PartialEqSpecImpl for Payload {
    open spec fn obeys_eq_spec() -> bool {
        true
    }

    open spec fn eq_spec(&self, other: &Payload) -> bool {
        self.side() == other.side() && self@ == other@
    }
}

impl PartialEq for Image {
    fn eq(&self, other: &Image) -> (r: bool) {
        self.width == other.width && self.height == other.height && same_pixels(
            &self.pixels,
            &other.pixels,
        )
    }
}

impl vstd::std_specs::cmp::PartialEqSpecImpl for Image {
    open spec fn obeys_eq_spec() -> bool {
        true
    }

    open spec fn eq_spec(&self, other: &Image) -> bool {
        self.size() == other.size() && self@ == other@
    }
}

fn same_cells(a: &Vec<Superpixel>, b: &Vec<Superpixel>) -> (r: bool)
    ensures
        r == (a@ == b@),
{
    if a.len() != b.len() {
        return false;
    }
    let mut i: usize = 0;
    while i < a.len()
        invariant
            i <= a@.len(),
            a@.len() == b@.len(),
            forall|k: int| 0 <= k < i ==> a@[k] == b@[k],
        decreases a@.len() - i,
    {
        if a[i] != b[i] {
            return false;
        }
        i = i + 1;
    }
    proof {
        assert(a@ =~= b@);
    }
    true
}

fn same_pixels(a: &Vec<Pixel>, b: &Vec<Pixel>) -> (r: bool)
    ensures
        r == (a@ == b@),
{
    if a.len() != b.len() {
        return false;
    }
    let mut i: usize = 0;
    while i < a.len()
        invariant
            i <= a@.len(),
            a@.len() == b@.len(),
            forall|k: int| 0 <= k < i ==> a@[k] == b@[k],
        decreases a@.len() - i,
    {
        if a[i] != b[i] {
            return false;
        }
        i = i + 1;
    }
    proof {
        assert(a@ =~= b@);
    }
    true
}

fn target_present(width: u8, data: &Vec<Superpixel>) -> (r: bool)
    requires
        data@.len() == width as int * width as int,
    ensures
        r == has_target(width as int, data@),
{
    let w = width as usize;
    proof {
        lemma_square_bound(width);
    }
    if w < 3 {
        return false;
    }
    proof {
        lemma_cell_in_grid(w as int, 2, 2);
    }
    let mut row: usize = 0;
    while row < 3
        invariant
            row <= 3,
            3 <= w,
            w == width as usize,
            data@.len() == w * w,
            forall|i: int, c: int|
                0 <= i < row && 0 <= c < 3 ==> #[trigger] data@[i * w + c] == target_row_major(
                    i * 3 + c,
                ),
        decreases 3 - row,
    {
        let mut column: usize = 0;
        while column < 3
            invariant
                row < 3,
                column <= 3,
                3 <= w,
                w == width as usize,
                data@.len() == w * w,
                forall|i: int, c: int|
                    (0 <= i < row && 0 <= c < 3) || (i == row && 0 <= c < column)
                        ==> #[trigger] data@[i * w + c] == target_row_major(i * 3 + c),
            decreases 3 - column,
        {
            proof {
                lemma_cell_in_grid(w as int, row as int, column as int);
            }
            let expected = if row * 3 + column == 0 || row * 3 + column >= 5 || row * 3
                + column == 2 {
                Superpixel::Black
            } else {
                Superpixel::White
            };
            assert(expected == target_row_major(row * 3 + column));
            if data[row * w + column] != expected {
                assert(data@[row as int * width as int + column as int] != target_row_major(
                    row * 3 + column,
                ));
                return false;
            }
            column = column + 1;
        }
        row = row + 1;
    }
    true
}

fn encoded_cell_at(prefixed: &Vec<u8>, n_symbols: usize, k: usize, Ghost(bytes): Ghost<Seq<u8>>) -> (r: Superpixel)
    requires
        prefixed@ == length_prefixed(bytes),
        n_symbols == symbol_count(prefixed@.len() as int),
    ensures
        r == encoded_cell(bytes, k as int),
{
    if k < 9 {
        if k == 0 || k >= 4 {
            Superpixel::Black
        } else {
            Superpixel::White
        }
    } else if k - 9 < n_symbols {
        let c = (k - 9) / 4;
        let b0: u8 = byte_at(prefixed, 3 * c);
        let b1: u8 = byte_at(prefixed, 3 * c + 1);
        let b2: u8 = byte_at(prefixed, 3 * c + 2);
        let t = (k - 9) % 4;
        let v: u8 = if t == 0 {
            b0 / 4
        } else if t == 1 {
            (b0 % 4) * 16 + b1 / 16
        } else if t == 2 {
            (b1 % 16) * 4 + b2 / 64
        } else {
            b2 % 64
        };
        Superpixel::Value(v)
    } else {
        Superpixel::Ignore
    }
}

fn byte_at(s: &Vec<u8>, i: usize) -> (r: u8)
    ensures
        r == byte_or_zero(s@, i as int),
{
    if i < s.len() {
        s[i]
    } else {
        0
    }
}

/// The 6-bit number of cell `k`, or zero past the end.
fn symbol_at(cells: &Vec<Superpixel>, k: usize, Ghost(syms): Ghost<Seq<Superpixel>>) -> (r: u8)
    requires
        9 <= k,
        cells@.len() >= 9,
        syms == cells@.subrange(9, cells@.len() as int),
    ensures
        r == symbol_or_zero(syms, k - 9),
        r < 64,
{
    if k < cells.len() {
        match cells[k] {
            Superpixel::Ignore => 0,
            Superpixel::Black => 0,
            Superpixel::White => 63,
            Superpixel::Value(v) => v % 64,
        }
    } else {
        0
    }
}

/// The most frequent symbol of a non-empty sequence; of equally frequent ones, the
/// first to occur.
fn majority(classes: &Vec<Superpixel>) -> (r: Superpixel)
    requires
        classes@.len() > 0,
    ensures
        is_majority(classes@, r),
{
    let n = classes.len();
    let mut counts: Vec<usize> = Vec::new();
    while counts.len() < 259
        invariant
            counts@.len() <= 259,
            forall|k: int| 0 <= k < counts@.len() ==> counts@[k] == 0,
        decreases 259 - counts@.len(),
    {
        counts.push(0);
    }
    proof {
        assert forall|s: Superpixel| #[trigger] counts@[slot(s)] == count(classes@.take(0), s) by {
            assert(classes@.take(0).len() == 0);
            reveal(count);
        }
    }
    let mut i: usize = 0;
    while i < n
        invariant
            i <= n,
            n == classes@.len(),
            counts@.len() == 259,
            forall|s: Superpixel| #[trigger] counts@[slot(s)] == count(classes@.take(i as int), s),
        decreases n - i,
    {
        let c = classes[i];
        let k: usize = match c {
            Superpixel::Value(v) => v as usize,
            Superpixel::Black => 256,
            Superpixel::White => 257,
            Superpixel::Ignore => 258,
        };
        proof {
            let before = classes@.take(i as int);
            let after = classes@.take(i + 1);
            assert(after.drop_last() =~= before);
            assert(after.last() == c);
            reveal(count);
            lemma_count_bound(before, c);
            assert forall|s: Superpixel| #[trigger] count(after, s) == count(before, s) + if s == c {
                1nat
            } else {
                0nat
            } by {}
            assert(counts@[slot(c)] <= i);
        }
        counts.set(k, counts[k] + 1);
        proof {
            let after = classes@.take(i + 1);
            assert forall|s: Superpixel| #[trigger] counts@[slot(s)] == count(after, s) by {
                if slot(s) == slot(c) {
                    assert(s == c);
                }
            }
        }
        i = i + 1;
    }
    proof {
        assert(classes@.take(n as int) =~= classes@);
    }
    let mut best: usize = 0;
    let mut j: usize = 0;
    while j < n
        invariant
            j <= n,
            n == classes@.len(),
            best < n,
            best <= j,
            counts@.len() == 259,
            forall|s: Superpixel| #[trigger] counts@[slot(s)] == count(classes@, s),
            forall|t: int| 0 <= t < j ==> count(classes@, #[trigger] classes@[t]) <= count(classes@, classes@[best as int]),
            forall|t: int| 0 <= t < best ==> count(classes@, #[trigger] classes@[t]) < count(classes@, classes@[best as int]),
        decreases n - j,
    {
        let kj: usize = slot_of(classes[j]);
        let kb: usize = slot_of(classes[best]);
        if counts[kj] > counts[kb] {
            best = j;
        }
        j = j + 1;
    }
    let r = classes[best];
    proof {
        assert(is_first_mode(classes@, best as int));
    }
    r
}

fn slot_of(s: Superpixel) -> (r: usize)
    ensures
        r == slot(s),
        r < 259,
{
    match s {
        Superpixel::Value(v) => v as usize,
        Superpixel::Black => 256,
        Superpixel::White => 257,
        Superpixel::Ignore => 258,
    }
}

/// Round a channel value to the nearest value that carries the given affinity.
pub fn round_to_affinity(affinity: u8, input: u8) -> (r: u8)
    requires
        affinity < 4,
    ensures
        r == rounded_to_affinity(affinity, input),
        affinity_of(r) == affinity,
{
    let offset: u8 = 8 + 16 * affinity;
    let mut best: u8 = offset;
    let mut best_distance: u8 = if offset >= input { offset - input } else { input - offset };
    let mut quadrant: u8 = 1;
    while quadrant < 4
        invariant
            1 <= quadrant <= 4,
            offset == 8 + 16 * affinity,
            affinity < 4,
            ({
                let q = nearest_quadrant_upto(affinity, input, quadrant as int);
                best as int == center(affinity, q) && best_distance as int == distance(
                    center(affinity, q),
                    input as int,
                )
            }),
        decreases 4 - quadrant,
    {
        let value: u8 = quadrant * 64 + offset;
        let d: u8 = if value >= input { value - input } else { input - value };
        if d < best_distance {
            best = value;
            best_distance = d;
        }
        quadrant = quadrant + 1;
    }
    let r: u8 = if best <= 8 {
        0
    } else if best >= 248 {
        255
    } else {
        best
    };
    proof {
        reveal_with_fuel(nearest_quadrant_upto, 4);
        let q = nearest_quadrant(affinity, input);
        assert(q == nearest_quadrant_upto(affinity, input, 4));
        lemma_rounded_affinity(affinity, input);
    }
    r
}

/// Find the affinity of a channel value.
pub fn get_affinity(input: u8) -> (r: u8)
    ensures
        r == affinity_of(input),
        r < 4,
{
    (input / 16) % 4
}

// Laws of the codec.

/// A pixel that carries a 6-bit value reads back as a symbol standing for that value,
/// whatever the pixel held before.
pub proof fn lemma_pixel_value_round_trip(p: Pixel, value: u8)
    requires
        value < 64,
    ensures
        symbol_value(classify(with_value_spec(p, value))) == value,
{
    let ar = ((value as int / 16) % 4) as u8;
    let ag = ((value as int / 4) % 4) as u8;
    let ab = (value as int % 4) as u8;
    lemma_rounded_affinity(ar, p.r);
    lemma_rounded_affinity(ag, p.g);
    lemma_rounded_affinity(ab, p.b);
    let q = with_value_spec(p, value);
    assert(value == 16 * ar + 4 * ag + ab) by (nonlinear_arith)
        requires
            value < 64,
            ar == ((value as int / 16) % 4),
            ag == ((value as int / 4) % 4),
            ab == (value as int % 4),
    ;
    assert(q.r < 16 ==> affinity_of(q.r) == 0);
    assert(q.g < 16 ==> affinity_of(q.g) == 0);
    assert(q.b < 16 ==> affinity_of(q.b) == 0);
    assert(q.r > 239 ==> affinity_of(q.r) == 3);
    assert(q.g > 239 ==> affinity_of(q.g) == 3);
    assert(q.b > 239 ==> affinity_of(q.b) == 3);
}

/// Decoding the spiral that encodes a buffer gives the buffer back, for every buffer
/// whose cells fit in a grid of side at most 255 (at most 48760 bytes).
pub proof fn lemma_encode_decode(bytes: Seq<u8>, w: int)
    requires
        cell_count(bytes.len() as int) <= 65025,
        fits_width(w, cell_count(bytes.len() as int)),
    ensures
        decoded(Seq::new((w * w) as nat, |k: int| encoded_cell(bytes, k))) == Ok::<
            Seq<u8>,
            Error,
        >(bytes),
{
    let n = cell_count(bytes.len() as int);
    assert(w * w >= n) by (nonlinear_arith)
        requires
            fits_width(w, n),
            n <= 65025,
    ;
    let cells = Seq::new((w * w) as nat, |k: int| encoded_cell(bytes, k));
    assert(agrees_with_encoding(cells, bytes)) by {
        reveal(agrees_with_encoding);
    }
    lemma_agreeing_decode(cells, bytes);
}

/// Cells that agree with the encoding of a buffer decode to that buffer.
pub proof fn lemma_agreeing_decode(cells: Seq<Superpixel>, bytes: Seq<u8>)
    requires
        bytes.len() <= 65535,
        agrees_with_encoding(cells, bytes),
    ensures
        decoded(cells) == Ok::<Seq<u8>, Error>(bytes),
{
    assert(cells.len() >= cell_count(bytes.len() as int)) by {
        reveal(agrees_with_encoding);
    }
    let p = length_prefixed(bytes);
    let syms = cells.subrange(9, cells.len() as int);
    let stream = unpacked(syms);
    assert(stream.len() >= p.len());
    assert forall|i: int| 0 <= i < p.len() implies #[trigger] stream[i] == p[i] by {
        lemma_agreeing_byte(cells, bytes, i);
    }
    assert(stream[0] == p[0] && stream[1] == p[1]);
    assert(stream[0] as int * 256 + stream[1] as int == bytes.len());
    assert(stream.subrange(2, 2 + bytes.len() as int) =~= bytes);
}

/// Changing any one cell of the target of a grid leaves it without a target.
pub proof fn lemma_corrupted_target(w: int, cells: Seq<Superpixel>, row: int, column: int, s: Superpixel)
    requires
        cells.len() == w * w,
        has_target(w, cells),
        0 <= row < 3,
        0 <= column < 3,
        s != cells[row * w + column],
    ensures
        !has_target(w, cells.update(row * w + column, s)),
{
    let changed = cells.update(row * w + column, s);
    assert(w * 2 + 2 < w * w) by (nonlinear_arith)
        requires
            w >= 3,
    ;
    assert(row * w + column < w * w) by (nonlinear_arith)
        requires
            w >= 3,
            0 <= row < 3,
            0 <= column < 3,
    ;
    if has_target(w, changed) {
        assert(changed[row * w + column] == target_row_major(row * 3 + column));
        assert(cells[row * w + column] == target_row_major(row * 3 + column));
        assert(false);
    }
}

/// Baking the grid that encodes a buffer into any image at least as wide and high as the
/// grid, and reading it back, gives the buffer again, provided the grid read back is
/// square (the image holds as many whole superpixels across as down) and at most 255
/// wide.
pub proof fn lemma_image_round_trip(bytes: Seq<u8>, payload: Payload, image: Image, before: Seq<Pixel>)
    requires
        cell_count(bytes.len() as int) <= 65025,
        payload.wf(),
        fits_width(payload.side(), cell_count(bytes.len() as int)),
        payload.spiral_spec() == Seq::new(
            (payload.side() * payload.side()) as nat,
            |k: int| encoded_cell(bytes, k),
        ),
        image.wf(),
        image.size().0 >= payload.side(),
        image.size().1 >= payload.side(),
        image@ == baked_pixels(before, image.size().0 as int, image.size().1 as int, payload),
        read_side(image.size().0 as int, payload.side()) == read_side(image.size().1 as int, payload.side()),
        read_side(image.size().0 as int, payload.side()) <= 255,
    ensures
        image.geometry() == Ok::<(int, int, int), Error>(
            (
                image.size().0 as int / payload.side(),
                image.size().1 as int / payload.side(),
                read_side(image.size().0 as int, payload.side()),
            ),
        ),
        forall|read: Seq<Superpixel>|
            #[trigger] is_reading(
                read,
                image@,
                image.size().0 as int,
                image.size().0 as int / payload.side(),
                image.size().1 as int / payload.side(),
                read_side(image.size().0 as int, payload.side()),
            ) ==> {
                let g = read_side(image.size().0 as int, payload.side());
                has_target(g, read) && decoded(spiral(g, read, g)) == Ok::<Seq<u8>, Error>(bytes)
            },
        ({
            let g = read_side(image.size().0 as int, payload.side());
            let read = reading_of(
                image@,
                image.size().0 as int,
                image.size().0 as int / payload.side(),
                image.size().1 as int / payload.side(),
                g,
            );
            &&& is_reading(
                read,
                image@,
                image.size().0 as int,
                image.size().0 as int / payload.side(),
                image.size().1 as int / payload.side(),
                g,
            )
            &&& has_target(g, read)
            &&& decoded(spiral(g, read, g)) == Ok::<Seq<u8>, Error>(bytes)
        }),
{
    let w = payload.side();
    let width = image.size().0 as int;
    let height = image.size().1 as int;
    let sw = width / w;
    let sh = height / w;
    let g = read_side(width, w);
    let n = cell_count(bytes.len() as int);
    assert(w >= 4) by (nonlinear_arith)
        requires
            fits_width(w, n),
            n >= 13,
    ;
    assert(n <= w * w) by (nonlinear_arith)
        requires
            fits_width(w, n),
            n <= 65025,
    ;
    lemma_encoded_target(payload@, bytes, w);
    lemma_geometry_bounds(width, height, w);
    lemma_baked_target_row(before, payload, width, height);
    lemma_baked_target_column(before, payload, width, height);
    assert(width <= image@.len()) by (nonlinear_arith)
        requires
            image@.len() == width * height,
            height >= 1,
            width >= 0,
    ;
    assert(image.first_row() =~= image@.take(width));
    lemma_mark_size_of_target(image.first_row(), sw);
    lemma_mark_size_of_target(image.first_column(), sh);
    assert forall|read: Seq<Superpixel>|
        #[trigger] is_reading(read, image@, width, sw, sh, g) implies has_target(g, read) && decoded(
            spiral(g, read, g),
        ) == Ok::<Seq<u8>, Error>(bytes) by {
        assert forall|row: int, column: int|
            0 <= row < 3 && 0 <= column < 3 implies #[trigger] read[row * g + column]
            == target_row_major(row * 3 + column) by {
            lemma_read_cell(before, payload, width, height, sw, sh, g, column, row, read[row * g + column]);
            assert(payload@[row * w + column] == target_row_major(row * 3 + column));
        }
        lemma_spiral_len(g, read, g);
        assert(g * g >= w * w) by (nonlinear_arith)
            requires
                g >= w,
                w >= 0,
        ;
        assert(agrees_with_encoding(spiral(g, read, g), bytes)) by {
            reveal(agrees_with_encoding);
            assert forall|k: int| 9 <= k < n implies symbol_value(#[trigger] spiral(g, read, g)[k])
                == symbol_value(encoded_cell(bytes, k)) by {
                let (r, j) = spiral_coordinates(k, w);
                lemma_spiral_index(g, read, g, r, j);
                lemma_spiral_index(w, payload@, w, r, j);
                let rw = if j <= r { j } else { r };
                let cl = if j <= r { r } else { 2 * r - j };
                assert(spiral_cell(g, r, j) == rw * g + cl);
                assert(spiral_cell(w, r, j) == rw * w + cl);
                lemma_read_cell(before, payload, width, height, sw, sh, g, cl, rw, read[rw * g + cl]);
                let p = length_prefixed(bytes);
                let c = (k - 9) / 4;
                lemma_chunk_round_trip(
                    byte_or_zero(p, 3 * c),
                    byte_or_zero(p, 3 * c + 1),
                    byte_or_zero(p, 3 * c + 2),
                );
            }
        }
        lemma_agreeing_decode(spiral(g, read, g), bytes);
    }
    lemma_reading_exists(image@, width, sw, sh, g);
}

// Supporting lemmas.

/// When every cell holds the value of its spiral position, the spiral reads those
/// values in order.
proof fn lemma_spiral_from_positions(w: int, cells: Seq<Superpixel>, bytes: Seq<u8>, n: int)
    requires
        0 <= n <= w <= 255,
        cells.len() == w * w,
        forall|i: int, c: int|
            0 <= i < w && 0 <= c < w ==> #[trigger] cells[i * w + c] == encoded_cell(
                bytes,
                spiral_position(i, c),
            ),
    ensures
        spiral(w, cells, n) =~= Seq::new((n * n) as nat, |k: int| encoded_cell(bytes, k)),
    decreases n,
{
    if n > 0 {
        lemma_spiral_from_positions(w, cells, bytes, n - 1);
        let r = n - 1;
        lemma_spiral_len(w, cells, r);
        assert(n * n == r * r + 2 * r + 1) by (nonlinear_arith)
            requires
                r == n - 1,
        ;
        assert forall|j: int| 0 <= j <= 2 * r implies #[trigger] ring(w, cells, r)[j] == encoded_cell(
            bytes,
            r * r + j,
        ) by {
            if j <= r {
                lemma_cell_in_grid(w, j, r);
                assert(cells[j * w + r] == encoded_cell(bytes, spiral_position(j, r)));
            } else {
                lemma_cell_in_grid(w, r, 2 * r - j);
                assert(cells[r * w + (2 * r - j)] == encoded_cell(
                    bytes,
                    spiral_position(r, 2 * r - j),
                ));
            }
        }
        assert(spiral(w, cells, n) == spiral(w, cells, r) + ring(w, cells, r));
        assert forall|k: int| 0 <= k < n * n implies #[trigger] spiral(w, cells, n)[k]
            == encoded_cell(bytes, k) by {
            if k >= r * r {
                assert(ring(w, cells, r)[k - r * r] == encoded_cell(bytes, r * r + (k - r * r)));
            }
        }
        lemma_spiral_len(w, cells, n);
    } else {
        assert(n * n == 0) by (nonlinear_arith)
            requires
                n == 0,
        ;
        assert(spiral(w, cells, n).len() == 0);
    }
}

/// Packing three bytes into four 6-bit symbols and unpacking them gives the bytes back.
proof fn lemma_chunk_round_trip(b0: int, b1: int, b2: int)
    requires
        0 <= b0 < 256,
        0 <= b1 < 256,
        0 <= b2 < 256,
    ensures
        (b0 / 4) * 4 + ((b0 % 4) * 16 + b1 / 16) / 16 == b0,
        (((b0 % 4) * 16 + b1 / 16) % 16) * 16 + ((b1 % 16) * 4 + b2 / 64) / 4 == b1,
        (((b1 % 16) * 4 + b2 / 64) % 4) * 64 + b2 % 64 == b2,
        b0 / 4 < 64,
        (b0 % 4) * 16 + b1 / 16 < 64,
        (b1 % 16) * 4 + b2 / 64 < 64,
{
}

/// The symbols after the target of such cells are the packed symbols of the buffer.
proof fn lemma_agreeing_symbol(cells: Seq<Superpixel>, bytes: Seq<u8>, k: int)
    requires
        agrees_with_encoding(cells, bytes),
        0 <= k < symbol_count(length_prefixed(bytes).len() as int),
    ensures
        symbol_or_zero(cells.subrange(9, cells.len() as int), k) == packed_symbol(
            length_prefixed(bytes),
            k,
        ),
{
    reveal(agrees_with_encoding);
    let p = length_prefixed(bytes);
    let c = k / 4;
    lemma_chunk_round_trip(byte_or_zero(p, 3 * c), byte_or_zero(p, 3 * c + 1), byte_or_zero(p, 3 * c + 2));
    assert(symbol_value(cells[9 + k]) == symbol_value(encoded_cell(bytes, 9 + k)));
}

/// Each byte unpacked from such cells is the byte of the length-prefixed buffer at that
/// place.
proof fn lemma_agreeing_byte(cells: Seq<Superpixel>, bytes: Seq<u8>, i: int)
    requires
        agrees_with_encoding(cells, bytes),
        0 <= i < length_prefixed(bytes).len(),
    ensures
        unpacked_byte(cells.subrange(9, cells.len() as int), i) == length_prefixed(bytes)[i],
{
    let p = length_prefixed(bytes);
    let c = i / 3;
    let b0 = byte_or_zero(p, 3 * c);
    let b1 = byte_or_zero(p, 3 * c + 1);
    let b2 = byte_or_zero(p, 3 * c + 2);
    lemma_chunk_round_trip(b0, b1, b2);
    assert(4 * c + 3 < symbol_count(p.len() as int));
    lemma_agreeing_symbol(cells, bytes, 4 * c);
    lemma_agreeing_symbol(cells, bytes, 4 * c + 1);
    lemma_agreeing_symbol(cells, bytes, 4 * c + 2);
    lemma_agreeing_symbol(cells, bytes, 4 * c + 3);
    assert((4 * c) / 4 == c && (4 * c + 1) / 4 == c && (4 * c + 2) / 4 == c && (4 * c + 3) / 4 == c);
    assert((4 * c) % 4 == 0 && (4 * c + 1) % 4 == 1 && (4 * c + 2) % 4 == 2 && (4 * c + 3) % 4 == 3);
}

/// The grid of any encoded buffer shows the target in its top left corner.
proof fn lemma_encoded_target(cells: Seq<Superpixel>, bytes: Seq<u8>, w: int)
    requires
        4 <= w <= 255,
        cells.len() == w * w,
        spiral(w, cells, w) == Seq::new((w * w) as nat, |k: int| encoded_cell(bytes, k)),
    ensures
        has_target(w, cells),
{
    assert forall|row: int, column: int| 0 <= row < 3 && 0 <= column < 3 implies #[trigger] cells[row * w + column] == target_row_major(row * 3 + column) by {
        lemma_spiral_len(w, cells, w);
        if row <= column {
            lemma_spiral_index(w, cells, w, column, row);
            assert(spiral_cell(w, column, row) == row * w + column);
        } else {
            lemma_spiral_index(w, cells, w, row, 2 * row - column);
            assert(spiral_cell(w, row, 2 * row - column) == row * w + column);
        }
        let k = spiral_position(row, column);
        assert(k < 9 && target_spiral(k) == target_row_major(row * 3 + column)) by {
            if row == 0 && column == 0 {
            } else if row == 0 && column == 1 {
            } else if row == 0 && column == 2 {
            } else if row == 1 && column == 0 {
            } else if row == 1 && column == 1 {
            } else if row == 1 && column == 2 {
            } else if row == 2 && column == 0 {
            } else if row == 2 && column == 1 {
            } else if row == 2 && column == 2 {
            }
        }
        assert(w * w >= 16) by (nonlinear_arith)
            requires
                w >= 4,
        ;
    }
}

proof fn lemma_div_at_least_one(a: int, b: int)
    requires
        0 < b <= a,
    ensures
        a / b >= 1,
{
    assert(a / b >= 1) by (nonlinear_arith)
        requires
            0 < b <= a,
    ;
}

proof fn lemma_cell_in_grid_wide(h: int, w: int, y: int)
    requires
        0 <= y < h,
        0 < w,
    ensures
        0 <= y * w < h * w,
{
    assert(0 <= y * w < h * w) by (nonlinear_arith)
        requires
            0 <= y < h,
            0 < w,
    ;
}

proof fn lemma_block_index(w: int, h: int, sw: int, sh: int, side: int, x: int, y: int, sx: int, sy: int)
    requires
        side * sw <= w,
        side * sh <= h,
        0 <= x < side,
        0 <= y < side,
        0 <= sx < sw,
        0 <= sy < sh,
    ensures
        0 <= y * sh + sy < h,
        0 <= x * sw + sx < w,
        0 <= (y * sh + sy) * w <= (y * sh + sy) * w + x * sw + sx < h * w,
        sy * sw + sx < sw * sh,
{
    assert(0 <= y * sh + sy < h && 0 <= x * sw + sx < w) by (nonlinear_arith)
        requires
            side * sw <= w,
            side * sh <= h,
            0 <= x < side,
            0 <= y < side,
            0 <= sx < sw,
            0 <= sy < sh,
    ;
    let row = y * sh + sy;
    let column = x * sw + sx;
    assert(0 <= row * w <= row * w + column < h * w) by (nonlinear_arith)
        requires
            0 <= row < h,
            0 <= column < w,
    ;
    assert(sy * sw + sx < sw * sh) by (nonlinear_arith)
        requires
            0 <= sx < sw,
            0 <= sy < sh,
    ;
}

/// A sequence has only one majority symbol.
proof fn lemma_majority_unique(s: Seq<Superpixel>, a: Superpixel, b: Superpixel)
    requires
        is_majority(s, a),
        is_majority(s, b),
    ensures
        a == b,
{
    let ka = choose|k: int| #[trigger] is_first_mode(s, k) && s[k] == a;
    let kb = choose|k: int| #[trigger] is_first_mode(s, k) && s[k] == b;
    if ka < kb {
        assert(count(s, s[ka]) < count(s, s[kb]));
        assert(count(s, s[ka]) >= count(s, s[kb]));
    } else if kb < ka {
        assert(count(s, s[kb]) < count(s, s[ka]));
        assert(count(s, s[kb]) >= count(s, s[ka]));
    }
}

proof fn lemma_count_bound(s: Seq<Superpixel>, x: Superpixel)
    ensures
        count(s, x) <= s.len(),
    decreases s.len(),
{
    reveal(count);
    if s.len() > 0 {
        lemma_count_bound(s.drop_last(), x);
    }
}

/// Writing the cell at ring `r`, place `j` changes the spiral at `r * r + j` only.
proof fn lemma_spiral_update(w: int, cells: Seq<Superpixel>, index: int, value: Superpixel, r: int, j: int)
    requires
        0 <= r < w <= 255,
        0 <= j <= 2 * r,
        cells.len() == w * w,
        index == spiral_cell(w, r, j),
    ensures
        spiral(w, cells.update(index, value), w) == spiral(w, cells, w).update(r * r + j, value),
{
    let after = cells.update(index, value);
    lemma_spiral_len(w, cells, w);
    lemma_spiral_len(w, after, w);
    assert forall|k: int| 0 <= k < w * w implies #[trigger] spiral(w, after, w)[k] == spiral(w, cells, w).update(r * r + j, value)[k] by {
        let (r2, j2) = spiral_coordinates(k, w);
        lemma_spiral_index(w, cells, w, r2, j2);
        lemma_spiral_index(w, after, w, r2, j2);
        let cell2 = spiral_cell(w, r2, j2);
        if j2 <= r2 {
            lemma_cell_in_grid(w, j2, r2);
        } else {
            lemma_cell_in_grid(w, r2, 2 * r2 - j2);
        }
        if j <= r {
            lemma_cell_in_grid(w, j, r);
        } else {
            lemma_cell_in_grid(w, r, 2 * r - j);
        }
        assert(r * r + j < w * w) by (nonlinear_arith)
            requires
                0 <= r < w,
                0 <= j <= 2 * r,
        ;
        if cell2 == index {
            lemma_spiral_cell_injective(w, r, j, r2, j2);
            assert(after[cell2] == value);
        } else {
            assert(after[cell2] == cells[cell2]);
            if k == r * r + j {
                lemma_ring_unique(r, j, r2, j2);
            }
        }
    }
    assert(r * r + j < w * w) by (nonlinear_arith)
        requires
            0 <= r < w,
            0 <= j <= 2 * r,
    ;
    assert(spiral(w, after, w).len() == spiral(w, cells, w).update(r * r + j, value).len());
    assert(spiral(w, after, w) =~= spiral(w, cells, w).update(r * r + j, value));
}

/// Ring and place in the ring of spiral position `k`.
proof fn spiral_coordinates(k: int, w: int) -> (rj: (int, int))
    requires
        0 <= k < w * w,
        0 <= w,
    ensures
        0 <= rj.0 < w,
        0 <= rj.1 <= 2 * rj.0,
        k == rj.0 * rj.0 + rj.1,
    decreases w,
{
    if k >= (w - 1) * (w - 1) {
        assert(k - (w - 1) * (w - 1) <= 2 * (w - 1)) by (nonlinear_arith)
            requires
                k < w * w,
        ;
        (w - 1, k - (w - 1) * (w - 1))
    } else {
        assert(w > 0) by (nonlinear_arith)
            requires
                0 <= k < w * w,
                0 <= w,
        ;
        spiral_coordinates(k, w - 1)
    }
}

/// A spiral position lies in one ring only.
proof fn lemma_ring_unique(r: int, j: int, r2: int, j2: int)
    requires
        0 <= r,
        0 <= j <= 2 * r,
        0 <= r2,
        0 <= j2 <= 2 * r2,
        r * r + j == r2 * r2 + j2,
    ensures
        r == r2 && j == j2,
{
    assert(r == r2) by (nonlinear_arith)
        requires
            0 <= r,
            0 <= j <= 2 * r,
            0 <= r2,
            0 <= j2 <= 2 * r2,
            r * r + j == r2 * r2 + j2,
    {
        if r < r2 {
            assert((r + 1) * (r + 1) <= r2 * r2) by (nonlinear_arith)
                requires
                    0 <= r < r2,
            ;
        } else if r2 < r {
            assert((r2 + 1) * (r2 + 1) <= r * r) by (nonlinear_arith)
                requires
                    0 <= r2 < r,
            ;
        }
    }
}

/// Different places of the spiral are different cells.
proof fn lemma_spiral_cell_injective(w: int, r: int, j: int, r2: int, j2: int)
    requires
        0 <= r < w,
        0 <= j <= 2 * r,
        0 <= r2 < w,
        0 <= j2 <= 2 * r2,
        spiral_cell(w, r, j) == spiral_cell(w, r2, j2),
    ensures
        r == r2 && j == j2,
{
    let (row, col) = if j <= r { (j, r) } else { (r, 2 * r - j) };
    let (row2, col2) = if j2 <= r2 { (j2, r2) } else { (r2, 2 * r2 - j2) };
    lemma_fundamental_div_mod_converse(spiral_cell(w, r, j), w, row, col);
    lemma_fundamental_div_mod_converse(spiral_cell(w, r2, j2), w, row2, col2);
}

/// No pixel of the kind sought in `a..b`: the search passes over them.
proof fn lemma_scan_skip(s: Seq<Pixel>, a: int, b: int, white: bool)
    requires
        0 <= a <= b <= s.len(),
        forall|i: int|
            a <= i < b ==> !(if white {
                is_white_mark(#[trigger] s[i])
            } else {
                is_black_mark(s[i])
            }),
    ensures
        first_mark(s, a, white) == first_mark(s, b, white),
    decreases b - a,
{
    if a < b {
        lemma_scan_skip(s, a + 1, b, white);
    }
}

/// A line of pixels that starts with `size` black, `size` white, then a black pixel shows
/// the superpixel size `size`.
proof fn lemma_mark_size_of_target(s: Seq<Pixel>, size: int)
    requires
        0 < size,
        2 * size < s.len(),
        size <= u32::MAX,
        forall|i: int| 0 <= i < size ==> #[trigger] s[i] == black_pixel(),
        forall|i: int| size <= i < 2 * size ==> #[trigger] s[i] == white_pixel(),
        s[2 * size] == black_pixel(),
    ensures
        mark_size(s) == Ok::<u32, Error>(size as u32),
{
    lemma_scan_skip(s, 0, size, true);
    assert(first_mark(s, size, true) == Some(size));
    lemma_scan_skip(s, size + 1, 2 * size, false);
    assert(first_mark(s, 2 * size, false) == Some(2 * size));
}

/// The majority reading of a superpixel of a baked image, when the superpixel lies
/// inside the block of one baked superpixel, stands for what that superpixel stands for.
#[verifier::rlimit(50)]
#[verifier::spinoff_prover]
proof fn lemma_read_cell(
    before: Seq<Pixel>,
    payload: Payload,
    width: int,
    height: int,
    sw: int,
    sh: int,
    g: int,
    x: int,
    y: int,
    m: Superpixel,
)
    requires
        payload.wf(),
        payload.side() > 0,
        before.len() == width * height,
        sw == width / payload.side(),
        sh == height / payload.side(),
        sw > 0,
        sh > 0,
        g * sw <= width,
        g * sh <= height,
        0 <= x < g,
        0 <= y < g,
        is_majority(cell_classes(baked_pixels(before, width, height, payload), width, sw, sh, x, y), m),
    ensures
        ({
            let cell = payload@[payload.clamped_index(x, y)];
            &&& cell == Superpixel::Black ==> m == Superpixel::Black
            &&& cell == Superpixel::White ==> m == Superpixel::White
            &&& (cell matches Superpixel::Value(v) && v < 64) ==> symbol_value(m) == symbol_value(cell)
        }),
{
    let after = baked_pixels(before, width, height, payload);
    let classes = cell_classes(after, width, sw, sh, x, y);
    let t = choose|k: int| #[trigger] is_first_mode(classes, k) && classes[k] == m;
    assert(0 <= t < sw * sh);
    lemma_fundamental_div_mod(t, sw);
    let sx = t % sw;
    let sy = t / sw;
    assert(sy < sh) by (nonlinear_arith)
        requires
            t == sw * sy + sx,
            0 <= sx,
            t < sw * sh,
            sw > 0,
    ;
    assert(sy >= 0) by (nonlinear_arith)
        requires
            t == sw * sy + sx,
            0 <= t,
            sx < sw,
            sw > 0,
    ;
    lemma_block_index(width, height, sw, sh, g, x, y, sx, sy);
    let row = y * sh + sy;
    let column = x * sw + sx;
    let i = row * width + column;
    lemma_fundamental_div_mod_converse(i, width, row, column);
    lemma_fundamental_div_mod_converse(column, sw, x, sx);
    lemma_fundamental_div_mod_converse(row, sh, y, sy);
    assert(classes[t] == classify(after[i]));
    let cell = payload@[payload.clamped_index(x, y)];
    assert(after[i] == baked(before[i], cell));
    if let Superpixel::Value(v) = cell {
        if v < 64 {
            lemma_pixel_value_round_trip(before[i], v);
        }
    }
}

/// Superpixel sizes and the side read back are positive, and the blocks they make fit in
/// the image.
proof fn lemma_geometry_bounds(width: int, height: int, w: int)
    requires
        4 <= w <= width,
        w <= height,
        read_side(width, w) == read_side(height, w),
    ensures
        width / w >= 1,
        height / w >= 1,
        3 * (width / w) <= width,
        3 * (height / w) <= height,
        read_side(width, w) * (width / w) <= width,
        read_side(width, w) * (height / w) <= height,
        read_side(width, w) >= w,
{
    let sw = width / w;
    let sh = height / w;
    let g = read_side(width, w);
    lemma_div_at_least_one(width, w);
    lemma_div_at_least_one(height, w);
    lemma_fundamental_div_mod(width, w);
    lemma_fundamental_div_mod(height, w);
    assert(w * sw <= width && w * sh <= height && 3 * sw <= width && 3 * sh <= height) by (nonlinear_arith)
        requires
            width == w * sw + width % w,
            height == w * sh + height % w,
            width % w >= 0,
            height % w >= 0,
            w >= 4,
            sw >= 1,
            sh >= 1,
    ;
    lemma_fundamental_div_mod(width, sw);
    lemma_fundamental_div_mod(height, sh);
    assert(g * sw <= width && g * sh <= height && g >= w) by (nonlinear_arith)
        requires
            width == sw * g + width % sw,
            height == sh * g + height % sh,
            0 <= width % sw < sw,
            0 <= height % sh,
            w * sw <= width,
            sw >= 1,
    ;
}

/// The first row of a baked image starts with the black, white and black of the target.
proof fn lemma_baked_target_row(before: Seq<Pixel>, payload: Payload, width: int, height: int)
    requires
        payload.wf(),
        payload.side() >= 4,
        has_target(payload.side(), payload@),
        payload.side() <= width,
        payload.side() <= height,
        before.len() == width * height,
    ensures
        ({
            let after = baked_pixels(before, width, height, payload);
            let sw = width / payload.side();
            &&& forall|i: int| 0 <= i < sw ==> #[trigger] after.take(width)[i] == black_pixel()
            &&& forall|i: int| sw <= i < 2 * sw ==> #[trigger] after.take(width)[i] == white_pixel()
            &&& after.take(width)[2 * sw] == black_pixel()
            &&& 2 * sw < after.take(width).len()
        }),
{
    let w = payload.side();
    let after = baked_pixels(before, width, height, payload);
    let sw = width / w;
    let sh = height / w;
    lemma_div_at_least_one(width, w);
    lemma_div_at_least_one(height, w);
    lemma_fundamental_div_mod(width, w);
    assert(3 * sw <= width) by (nonlinear_arith)
        requires
            width == w * sw + width % w,
            width % w >= 0,
            w >= 4,
            sw >= 1,
    ;
    assert(width <= width * height) by (nonlinear_arith)
        requires
            height >= 1,
            width >= 0,
    ;
    assert(payload@[0 * w + 0] == target_row_major(0));
    assert(payload@[0 * w + 1] == target_row_major(1));
    assert(payload@[0 * w + 2] == target_row_major(2));
    assert forall|i: int| 0 <= i <= 2 * sw implies #[trigger] after[i] == baked(
        before[i],
        payload@[i / sw],
    ) by {
        lemma_fundamental_div_mod_converse(i, width, 0, i);
        lemma_fundamental_div_mod(i, sw);
        assert(i / sw <= 2) by (nonlinear_arith)
            requires
                i == sw * (i / sw) + i % sw,
                i % sw >= 0,
                i <= 2 * sw,
                sw >= 1,
        ;
        assert(0int / sh == 0);
    }
    assert forall|i: int| 0 <= i < sw implies #[trigger] after.take(width)[i] == black_pixel() by {
        lemma_fundamental_div_mod_converse(i, sw, 0, i);
        assert(after[i] == baked(before[i], payload@[i / sw]));
    }
    assert forall|i: int| sw <= i < 2 * sw implies #[trigger] after.take(width)[i] == white_pixel() by {
        lemma_fundamental_div_mod_converse(i, sw, 1, i - sw);
        assert(after[i] == baked(before[i], payload@[i / sw]));
    }
    lemma_fundamental_div_mod_converse(2 * sw, sw, 2, 0);
    assert(after[2 * sw] == baked(before[2 * sw], payload@[(2 * sw) / sw]));
}

/// The first column of a baked image starts with the black, white and black of the
/// target.
proof fn lemma_baked_target_column(before: Seq<Pixel>, payload: Payload, width: int, height: int)
    requires
        payload.wf(),
        payload.side() >= 4,
        has_target(payload.side(), payload@),
        payload.side() <= width,
        payload.side() <= height,
        before.len() == width * height,
    ensures
        ({
            let after = baked_pixels(before, width, height, payload);
            let column = Seq::new(height as nat, |y: int| after[y * width]);
            let sh = height / payload.side();
            &&& forall|i: int| 0 <= i < sh ==> #[trigger] column[i] == black_pixel()
            &&& forall|i: int| sh <= i < 2 * sh ==> #[trigger] column[i] == white_pixel()
            &&& column[2 * sh] == black_pixel()
            &&& 2 * sh < column.len()
        }),
{
    let w = payload.side();
    let after = baked_pixels(before, width, height, payload);
    let column = Seq::new(height as nat, |y: int| after[y * width]);
    let sw = width / w;
    let sh = height / w;
    lemma_div_at_least_one(width, w);
    lemma_div_at_least_one(height, w);
    lemma_fundamental_div_mod(height, w);
    assert(3 * sh <= height) by (nonlinear_arith)
        requires
            height == w * sh + height % w,
            height % w >= 0,
            w >= 4,
            sh >= 1,
    ;
    assert(payload@[0 * w + 0] == target_row_major(0));
    assert(payload@[1 * w + 0] == target_row_major(3));
    assert(payload@[2 * w + 0] == target_row_major(6));
    assert forall|y: int| 0 <= y <= 2 * sh implies #[trigger] column[y] == baked(
        before[y * width],
        payload@[(y / sh) * w],
    ) by {
        lemma_cell_in_grid_wide(height, width, y);
        assert(height * width == width * height) by (nonlinear_arith);
        lemma_fundamental_div_mod_converse(y * width, width, y, 0);
        lemma_fundamental_div_mod(y, sh);
        assert(y / sh <= 2) by (nonlinear_arith)
            requires
                y == sh * (y / sh) + y % sh,
                y % sh >= 0,
                y <= 2 * sh,
                sh >= 1,
        ;
        assert(0int / sw == 0);
        assert(after[y * width] == baked(before[y * width], payload@[payload.clamped_index(0, y / sh)]));
        assert(payload.clamped_index(0, y / sh) == (y / sh) * w);
    }
    assert forall|y: int| 0 <= y < sh implies #[trigger] column[y] == black_pixel() by {
        lemma_fundamental_div_mod_converse(y, sh, 0, y);
        assert(column[y] == baked(before[y * width], payload@[(y / sh) * w]));
    }
    assert forall|y: int| sh <= y < 2 * sh implies #[trigger] column[y] == white_pixel() by {
        lemma_fundamental_div_mod_converse(y, sh, 1, y - sh);
        assert(column[y] == baked(before[y * width], payload@[(y / sh) * w]));
    }
    lemma_fundamental_div_mod_converse(2 * sh, sh, 2, 0);
    assert(column[2 * sh] == baked(before[2 * sh * width], payload@[((2 * sh) / sh) * w]));
}

/// `first_mode_upto` finds a most frequent symbol among the first `n`, at the first place
/// where one occurs.
proof fn lemma_first_mode(s: Seq<Superpixel>, n: int)
    requires
        1 <= n <= s.len(),
    ensures
        0 <= first_mode_upto(s, n) < n,
        forall|i: int| 0 <= i < n ==> count(s, #[trigger] s[i]) <= count(s, s[first_mode_upto(s, n)]),
        forall|i: int|
            0 <= i < first_mode_upto(s, n) ==> count(s, #[trigger] s[i]) < count(
                s,
                s[first_mode_upto(s, n)],
            ),
    decreases n,
{
    if n > 1 {
        lemma_first_mode(s, n - 1);
    }
}

/// Every non-empty sequence has a majority symbol: `majority_of`.
pub proof fn lemma_majority_exists(s: Seq<Superpixel>)
    requires
        s.len() > 0,
    ensures
        is_majority(s, majority_of(s)),
{
    lemma_first_mode(s, s.len() as int);
    assert(is_first_mode(s, first_mode_upto(s, s.len() as int)));
}

/// Any image, read with superpixels of a positive size, has a reading: `reading_of`.
pub proof fn lemma_reading_exists(pixels: Seq<Pixel>, width: int, sw: int, sh: int, side: int)
    requires
        sw > 0,
        sh > 0,
        side >= 0,
    ensures
        is_reading(reading_of(pixels, width, sw, sh, side), pixels, width, sw, sh, side),
{
    let cells = reading_of(pixels, width, sw, sh, side);
    assert(sw * sh > 0) by (nonlinear_arith)
        requires
            sw > 0,
            sh > 0,
    ;
    assert forall|x: int, y: int| 0 <= x < side && 0 <= y < side implies is_majority(
        cell_classes(pixels, width, sw, sh, x, y),
        #[trigger] cells[y * side + x],
    ) by {
        lemma_cell_in_grid_any(side, y, x);
        lemma_fundamental_div_mod_converse(y * side + x, side, y, x);
        lemma_majority_exists(cell_classes(pixels, width, sw, sh, x, y));
    }
}

proof fn lemma_cell_in_grid_any(w: int, row: int, column: int)
    requires
        0 <= row < w,
        0 <= column < w,
    ensures
        0 <= row * w + column < w * w,
{
    assert(0 <= row * w + column < w * w) by (nonlinear_arith)
        requires
            0 <= row < w,
            0 <= column < w,
    ;
}

proof fn lemma_square_bound(w: u8)
    ensures
        w as int * w as int <= 65025,
{
    assert(w as int * w as int <= 65025) by (nonlinear_arith)
        requires
            w <= 255,
    ;
}

proof fn lemma_cell_in_grid(w: int, row: int, column: int)
    requires
        0 <= row < w,
        0 <= column < w,
        w <= 255,
    ensures
        0 <= row * w <= row * w + column < w * w <= 65025,
{
    assert(0 <= row * w <= row * w + column < w * w <= 65025) by (nonlinear_arith)
        requires
            0 <= row < w,
            0 <= column < w,
            w <= 255,
    ;
}

proof fn lemma_spiral_len(w: int, cells: Seq<Superpixel>, n: int)
    requires
        n >= 0,
    ensures
        spiral(w, cells, n).len() == n * n,
    decreases n,
{
    if n > 0 {
        lemma_spiral_len(w, cells, n - 1);
        assert(ring(w, cells, n - 1).len() == 2 * (n - 1) + 1);
        assert(spiral(w, cells, n) == spiral(w, cells, n - 1) + ring(w, cells, n - 1));
        assert(spiral(w, cells, n).len() == spiral(w, cells, n - 1).len() + 2 * (n - 1) + 1);
        assert(n * n == (n - 1) * (n - 1) + 2 * (n - 1) + 1) by (nonlinear_arith);
        assert(spiral(w, cells, n).len() == n * n);
    } else {
        assert(n == 0);
        assert(spiral(w, cells, n).len() == 0);
    }
}

proof fn lemma_spiral_index(w: int, cells: Seq<Superpixel>, n: int, r: int, j: int)
    requires
        0 <= r < n,
        0 <= j <= 2 * r,
    ensures
        spiral(w, cells, n)[r * r + j] == cells[spiral_cell(w, r, j)],
    decreases n,
{
    lemma_spiral_len(w, cells, n - 1);
    if r < n - 1 {
        lemma_spiral_index(w, cells, n - 1, r, j);
        assert(r * r + j < (n - 1) * (n - 1)) by (nonlinear_arith)
            requires
                0 <= r < n - 1,
                0 <= j <= 2 * r,
        ;
    }
}

proof fn lemma_rounded_affinity(affinity: u8, x: u8)
    requires
        affinity < 4,
    ensures
        affinity_of(rounded_to_affinity(affinity, x)) == affinity,
{
    let q = nearest_quadrant(affinity, x);
    assert(0 <= q < 4);
    assert(affinity_of(rounded_to_affinity(affinity, x)) == affinity) by (nonlinear_arith)
        requires
            0 <= q < 4,
            affinity < 4,
            rounded_to_affinity(affinity, x) == (if center(affinity, q) <= 8 { 0 } else if center(
                affinity,
                q,
            ) >= 248 { 255 } else { center(affinity, q) }),
            affinity_of(rounded_to_affinity(affinity, x)) == ((rounded_to_affinity(affinity, x) as int / 16) % 4),
    ;
}

} // verus!
