//! Deterministic identicon derivation and a padded base64 encoder.
//!
//! A name is hashed to a 16-byte digest; the digest fixes a foreground color
//! and a mask of 15 cells; the mask is drawn, mirrored, on a 7 x 7 grid of
//! square cells over a solid background.
use std::io::Cursor;

use image::{ImageOutputFormat, RgbImage};
use md5::{Digest, Md5};
use vstd::prelude::*;

pub mod base64;
pub mod color;

use crate::base64::{encode, encoded};
use crate::color::{hsl_to_rgb, HslModel, HSL, RGB};

verus! {

pub const SAT_MIN: u16 = 45;
pub const SAT_MAX: u16 = 65;
pub const LUM_MIN: u16 = 55;
pub const LUM_MAX: u16 = 75;
pub const NUM_SQUARES: u32 = 7;
pub const JPEG_QUALITY: u8 = 255;
/// Number of cells in the paint mask: 3 columns by 5 rows.
pub const NUM_PAINTS: usize = 15;

#[verifier::external_type_specification]
#[verifier::external_body]
pub struct ExImageError(image::ImageError);

/// The output formats the encoder is asked for.
#[derive(Clone, Copy, Debug, PartialEq, Eq, Structural)]
pub enum ImageFormat {
    Png,
    Jpeg(u8),
    Gif,
}

#[derive(Debug)]
pub enum Error {
    InvalidHSL(color::Error),
    SaveImage(image::ImageError),
}

/// The MD5 digest of the UTF-8 text of a name.
pub uninterp spec fn md5_of(name: Seq<char>) -> Seq<u8>;

/// The bytes of an RGB image of `side x side` pixels (raw bytes, three per
/// pixel, row by row) in the given file format.
pub uninterp spec fn image_file_of(raw: Seq<u8>, side: u32, format: ImageFormat) -> Seq<u8>;

/// The encoder for `format` accepts an RGB image of `side x side` pixels with
/// these raw bytes.
pub uninterp spec fn image_encodable(raw: Seq<u8>, side: u32, format: ImageFormat) -> bool;

/// Relies on `md5::Md5` (`Digest::update` then `finalize`): the 16-byte MD5
/// digest of the name's bytes.
#[verifier::external_body]
fn md5_digest(name: &str) -> (r: [u8; 16])
    ensures
        r@ == md5_of(name@),
{
    let mut hasher = Md5::new();
    hasher.update(name);
    hasher.finalize().into()
}

/// Relies on `image::RgbImage::from_raw` (which accepts a buffer of exactly
/// three bytes per pixel) and `ImageBuffer::write_to`, which writes the image
/// in the given format into memory.
#[verifier::external_body]
fn write_image(raw: Vec<u8>, side: u32, format: ImageFormat) -> (r: Result<
    Vec<u8>,
    image::ImageError,
>)
    requires
        raw@.len() == 3 * side * side,
    ensures
        r is Ok <==> image_encodable(raw@, side, format),
        r is Ok ==> r->Ok_0@ == image_file_of(raw@, side, format),
{
    let img = RgbImage::from_raw(side, side, raw).expect("three bytes per pixel");
    let out = match format {
        ImageFormat::Png => ImageOutputFormat::Png,
        ImageFormat::Jpeg(q) => ImageOutputFormat::Jpeg(q),
        ImageFormat::Gif => ImageOutputFormat::Gif,
    };
    let mut bytes: Vec<u8> = Vec::new();
    img.write_to(&mut Cursor::new(&mut bytes), out)?;
    Ok(bytes)
}

/// `dlo + (v - vlo) * (dhi - dlo) / (vhi - vlo)`, over the denominator `vhi - vlo`.
pub open spec fn map_num(v: int, vhi: int, dlo: int, dhi: int) -> int {
    dlo * vhi + v * (dhi - dlo)
}

/// Denominator shared by the three derived HSL components: `4095 * 255`
/// reduced to `91 * 51`.
pub const FG_DEN: u16 = 4641;

/// The HSL color a digest selects: hue from the low nibble of byte 12 and
/// byte 13 (0..4095 onto 0..360 degrees), saturation from byte 14 (0..255
/// onto 65..45) and luminance from byte 15 (0..255 onto 75..55).
pub open spec fn fg_hsl(hash: Seq<u8>) -> HslModel {
    let hue_raw = ((hash[12] & 15) as int) * 256 + hash[13] as int;
    HslModel {
        hue: map_num(hue_raw, 4095, 0, 360) * 4641 / 4095,
        sat: map_num(hash[14] as int, 255, SAT_MAX as int, SAT_MIN as int) * 4641 / 255,
        lum: map_num(hash[15] as int, 255, LUM_MAX as int, LUM_MIN as int) * 4641 / 255,
        den: 4641,
    }
}

/// The four bits of nibble `i` of a digest, high nibble of each byte first.
pub open spec fn nibble(hash: Seq<u8>, i: int) -> u8 {
    if i % 2 == 0 {
        hash[i / 2] >> 4
    } else {
        hash[i / 2] & 15
    }
}

/// Cell of the mask that nibble `i` fills: column `2 - i / 5`, row `i % 5`.
pub open spec fn mask_index(i: int) -> int {
    (i % 5) * 3 + (2 - i / 5)
}

/// The paint mask of a digest: the cell of nibble `i` is painted when that
/// nibble is even.
pub open spec fn is_mask_of(mask: Seq<bool>, hash: Seq<u8>) -> bool {
    &&& mask.len() == 15
    &&& forall|i: int| 0 <= i < 15 ==> mask[mask_index(i)] == (nibble(hash, i) % 2 == 0)
}

/// The same mask read cell by cell: cell `k` (row `k / 3`, column `k % 3`)
/// is filled by nibble `(2 - k % 3) * 5 + k / 3`.
pub open spec fn mask_of(hash: Seq<u8>) -> Seq<bool> {
    Seq::new(15, |k: int| nibble(hash, (2 - k % 3) * 5 + k / 3) % 2 == 0)
}

pub struct IdenticonModel {
    pub paints: Seq<bool>,
    pub size: nat,
    pub foreground: RGB,
    pub background: RGB,
}

#[derive(Debug)]
pub struct Identicon {
    paints: [bool; 15],
    size: u32,
    foreground: RGB,
    background: RGB,
}

/// The value `Identicon::new` builds from a digest.
pub open spec fn identicon_of(hash: Seq<u8>, size: nat, background: RGB) -> IdenticonModel {
    IdenticonModel {
        paints: mask_of(hash),
        size,
        foreground: hsl_to_rgb(fg_hsl(hash)),
        background,
    }
}

/// The color of pixel `(x, y)`: the cell holding it is `(x / size, y / size)`;
/// columns right of the middle read the mirrored column `6 - c`; cell
/// `(c, r)` with `1 <= c <= 3` and `1 <= r <= 5` shows mask entry
/// `(r - 1) * 3 + (c - 1)`; every other cell is background.
pub open spec fn pixel_color(m: IdenticonModel, x: int, y: int) -> RGB {
    let c = x / (m.size as int);
    let r = y / (m.size as int);
    let mc = if c <= 3 {
        c
    } else {
        6 - c
    };
    if 1 <= r <= 5 && 1 <= mc <= 3 && m.paints[(r - 1) * 3 + (mc - 1)] {
        m.foreground
    } else {
        m.background
    }
}

pub open spec fn rgb_bytes(c: RGB) -> Seq<u8> {
    seq![c.red, c.green, c.blue]
}

/// Raw bytes of the first `n` pixels of row `y`.
pub open spec fn row_bytes(m: IdenticonModel, y: int, n: nat) -> Seq<u8>
    decreases n,
{
    if n == 0 {
        seq![]
    } else {
        row_bytes(m, y, (n - 1) as nat) + rgb_bytes(pixel_color(m, n - 1, y))
    }
}

/// Raw bytes of the first `n` rows of an image `side` pixels wide.
pub open spec fn image_bytes(m: IdenticonModel, side: nat, n: nat) -> Seq<u8>
    decreases n,
{
    if n == 0 {
        seq![]
    } else {
        image_bytes(m, side, (n - 1) as nat) + row_bytes(m, n - 1, side)
    }
}

/// Raw RGB bytes of the whole picture, row by row.
pub open spec fn raw_image(m: IdenticonModel) -> Seq<u8> {
    image_bytes(m, m.size * 7, m.size * 7)
}

/// Pixel `(x, y)` lies in mask cell `i`: column `1 + i % 3`, row `1 + i / 3`
/// of the 7 x 7 grid of cells `s` pixels wide.
pub open spec fn in_cell(s: int, i: int, x: int, y: int) -> bool {
    &&& (1 + i % 3) * s <= x < (2 + i % 3) * s
    &&& (1 + i / 3) * s <= y < (2 + i / 3) * s
}

/// Pixel `(x, y)` lies in a painted cell or in the mirror image of one.
pub open spec fn covered(m: IdenticonModel, x: int, y: int) -> bool {
    exists|i: int|
        0 <= i < 15 && #[trigger] m.paints[i] && (in_cell(m.size as int, i, x, y) || in_cell(
            m.size as int,
            i,
            7 * m.size - 1 - x,
            y,
        ))
}

proof fn lemma_div_exact(x: int, s: int, q: int)
    requires
        s > 0,
        q * s <= x < (q + 1) * s,
    ensures
        x / s == q,
{
    assert(x == q * s + (x - q * s));
    assert(x - q * s < s) by (nonlinear_arith)
        requires
            x < (q + 1) * s,
    ;
    vstd::arithmetic::div_mod::lemma_fundamental_div_mod_converse(x, s, q, x - q * s);
}

/// Every pixel of a painted cell, or of its mirror image, has the foreground
/// color; every other pixel has the background color.
pub proof fn lemma_painted_cells(m: IdenticonModel, x: int, y: int)
    requires
        m.size > 0,
        m.paints.len() == 15,
        0 <= x < 7 * m.size,
        0 <= y < 7 * m.size,
    ensures
        pixel_color(m, x, y) == if covered(m, x, y) {
            m.foreground
        } else {
            m.background
        },
{
    let s = m.size as int;
    let c = x / s;
    let r = y / s;
    let xm = 7 * s - 1 - x;
    vstd::arithmetic::div_mod::lemma_fundamental_div_mod(x, s);
    vstd::arithmetic::div_mod::lemma_fundamental_div_mod(y, s);
    assert(0 <= c < 7 && 0 <= r < 7) by (nonlinear_arith)
        requires
            c * s <= x < c * s + s,
            r * s <= y < r * s + s,
            0 <= x < 7 * s,
            0 <= y < 7 * s,
            s > 0,
    ;
    assert((6 - c) * s <= xm < (7 - c) * s) by (nonlinear_arith)
        requires
            c * s <= x < c * s + s,
            xm == 7 * s - 1 - x,
    ;
    lemma_div_exact(xm, s, 6 - c);
    let mc = if c <= 3 {
        c
    } else {
        6 - c
    };
    if covered(m, x, y) {
        let i = choose|i: int|
            0 <= i < 15 && #[trigger] m.paints[i] && (in_cell(s, i, x, y) || in_cell(
                s,
                i,
                7 * m.size - 1 - x,
                y,
            ));
        lemma_div_exact(y, s, 1 + i / 3);
        if in_cell(s, i, x, y) {
            lemma_div_exact(x, s, 1 + i % 3);
        } else {
            lemma_div_exact(xm, s, 1 + i % 3);
        }
        assert((r - 1) * 3 + (mc - 1) == i);
    } else if 1 <= r <= 5 && 1 <= mc <= 3 && m.paints[(r - 1) * 3 + (mc - 1)] {
        let i = (r - 1) * 3 + (mc - 1);
        assert(i % 3 == mc - 1 && i / 3 == r - 1);
        assert(r * s <= y < (r + 1) * s) by (nonlinear_arith)
            requires
                r * s <= y < r * s + s,
        ;
        assert(c * s <= x < (c + 1) * s) by (nonlinear_arith)
            requires
                c * s <= x < c * s + s,
        ;
        if c <= 3 {
            assert(in_cell(s, i, x, y));
        } else {
            assert(in_cell(s, i, xm, y));
        }
        assert(false);
    }
}

/// Two identicons built from the same name, cell size and background have
/// byte-identical pictures.
pub proof fn lemma_deterministic(
    a: Identicon,
    b: Identicon,
    name: Seq<char>,
    size: nat,
    background: RGB,
)
    requires
        a@ == identicon_of(md5_of(name), size, background),
        b@ == identicon_of(md5_of(name), size, background),
    ensures
        a@ == b@,
        raw_image(a@) == raw_image(b@),
{
}

/// The foreground color and the paint mask depend on the digest alone: the
/// cell size and the background do not change them.
pub proof fn lemma_appearance_from_digest(
    hash: Seq<u8>,
    size1: nat,
    background1: RGB,
    size2: nat,
    background2: RGB,
)
    ensures
        identicon_of(hash, size1, background1).foreground == identicon_of(
            hash,
            size2,
            background2,
        ).foreground,
        identicon_of(hash, size1, background1).paints == identicon_of(
            hash,
            size2,
            background2,
        ).paints,
        identicon_of(hash, size1, background1).foreground == hsl_to_rgb(fg_hsl(hash)),
        is_mask_of(identicon_of(hash, size1, background1).paints, hash),
{
    let mask = mask_of(hash);
    assert forall|i: int| 0 <= i < 15 implies #[trigger] mask[mask_index(i)] == (nibble(hash, i)
        % 2 == 0) by {
        let k = mask_index(i);
        assert((2 - k % 3) * 5 + k / 3 == i);
    }
}

proof fn lemma_row_bytes_len(m: IdenticonModel, y: int, n: nat)
    ensures
        row_bytes(m, y, n).len() == 3 * n,
    decreases n,
{
    if n > 0 {
        lemma_row_bytes_len(m, y, (n - 1) as nat);
    }
}

proof fn lemma_image_bytes_len(m: IdenticonModel, side: nat, n: nat)
    ensures
        image_bytes(m, side, n).len() == 3 * side * n,
    decreases n,
{
    if n == 0 {
        assert(3 * side * n == 0) by (nonlinear_arith)
            requires
                n == 0,
        ;
    } else {
        lemma_image_bytes_len(m, side, (n - 1) as nat);
        lemma_row_bytes_len(m, n - 1, side);
        let k = (n - 1) as nat;
        assert(image_bytes(m, side, n) == image_bytes(m, side, k) + row_bytes(m, k as int, side));
        assert(3 * side * k + 3 * side == 3 * side * n) by (nonlinear_arith)
            requires
                k + 1 == n,
        ;
    }
}

/// Turns the outcome of encoding a picture into its text: the base64 of the
/// file on success, the encoder's own error otherwise.
pub fn text_of_encoding(res: Result<Vec<u8>, image::ImageError>) -> (r: Result<String, Error>)
    ensures
        match res {
            Ok(w) => r is Ok && r->Ok_0@ == encoded(w@),
            Err(e) => r == Err::<String, Error>(Error::SaveImage(e)),
        },
{
    match res {
        Ok(bytes) => Ok(encode(bytes.as_slice())),
        Err(e) => Err(Error::SaveImage(e)),
    }
}

impl Identicon {
    pub closed spec fn view(&self) -> IdenticonModel {
        IdenticonModel {
            paints: self.paints@,
            size: self.size as nat,
            foreground: self.foreground,
            background: self.background,
        }
    }

    #[verifier::type_invariant]
    closed spec fn inv(&self) -> bool {
        0 < self.size <= u32::MAX / NUM_SQUARES
    }

    /// Builds the identicon of `name`: its MD5 digest fixes the foreground
    /// color and the paint mask; `size` is the side of one cell in pixels.
    pub fn new(name: &str, size: u32, background: RGB) -> (r: Result<Identicon, Error>)
        requires
            0 < size <= u32::MAX / NUM_SQUARES,
        ensures
            r is Ok,
            r is Ok ==> r->Ok_0@ == identicon_of(md5_of(name@), size as nat, background),
    {
        let hash = md5_digest(name);
        Self::from_digest(&hash, size, background)
    }

    /// Builds the identicon that a 16-byte digest selects.
    pub fn from_digest(hash: &[u8; 16], size: u32, background: RGB) -> (r: Result<
        Identicon,
        Error,
    >)
        requires
            0 < size <= u32::MAX / NUM_SQUARES,
        ensures
            r is Ok,
            r is Ok ==> r->Ok_0@ == identicon_of(hash@, size as nat, background),
    {
        let foreground = match Self::compute_fg(hash) {
            Ok(c) => c,
            Err(e) => {
                return Err(e);
            },
        };
        let mut paints = [false;15];
        Self::paint(hash, &mut paints);
        Ok(Identicon { paints, size, foreground, background })
    }

    /// Linearly maps `v` from `[0, vhi]` onto `[dlo, dhi]`; the result is
    /// given as a numerator over `den` (exact when `vhi` divides
    /// `map_num(..) * den`).
    fn map(v: u64, vhi: u64, dlo: u64, dhi: u64, den: u64) -> (r: u64)
        requires
            0 < vhi <= 4095,
            v <= vhi,
            dlo <= 360,
            dhi <= 360,
            den <= 4641,
        ensures
            r as int == map_num(v as int, vhi as int, dlo as int, dhi as int) * den / vhi as int,
            r <= (if dlo <= dhi { dhi } else { dlo }) * den,
    {
        let hi: u64 = if dlo <= dhi { dhi } else { dlo };
        assert(v * dlo <= vhi * dlo && v * dhi <= vhi * dhi && vhi * hi <= 4095 * 360 && dlo * vhi
            <= 4095 * 360 && v * dhi <= 4095 * 360) by (nonlinear_arith)
            requires
                v <= vhi <= 4095,
                hi <= 360,
                dlo <= 360,
                dhi <= 360,
        ;
        let num = dlo * vhi + v * dhi - v * dlo;
        assert(num <= hi * vhi) by (nonlinear_arith)
            requires
                num == dlo * vhi + v * dhi - v * dlo,
                v <= vhi,
                dlo <= hi,
                dhi <= hi,
        ;
        assert(num * den <= hi * den * vhi && num * den <= 4095 * 360 * 4641)
            by (nonlinear_arith)
            requires
                num <= hi * vhi,
                hi <= 360,
                vhi <= 4095,
                den <= 4641,
        ;
        proof {
            vstd::arithmetic::div_mod::lemma_div_is_ordered(
                num * den as int,
                (hi * den) * vhi as int,
                vhi as int,
            );
            vstd::arithmetic::div_mod::lemma_div_by_multiple((hi * den) as int, vhi as int);
            assert((num * den) / (vhi as int) <= hi * den);
            assert(num as int == map_num(v as int, vhi as int, dlo as int, dhi as int))
                by (nonlinear_arith)
                requires
                    num == dlo * vhi + v * dhi - v * dlo,
            ;
        }
        num * den / vhi
    }

    /// The foreground color a digest selects (see `fg_hsl`).
    fn compute_fg(hash: &[u8; 16]) -> (r: Result<RGB, Error>)
        ensures
            r is Ok,
            r is Ok ==> r->Ok_0 == hsl_to_rgb(fg_hsl(hash@)),
    {
        let b12 = hash[12];
        assert(b12 & 0x0f < 16) by (bit_vector);
        let hue_raw = ((b12 & 0x0f) as u64) * 256 + hash[13] as u64;
        let hue = Self::map(hue_raw, 4095, 0, color::HUE_MAX as u64, FG_DEN as u64);
        let sat = Self::map(hash[14] as u64, 255, SAT_MAX as u64, SAT_MIN as u64, FG_DEN as u64);
        let lum = Self::map(hash[15] as u64, 255, LUM_MAX as u64, LUM_MIN as u64, FG_DEN as u64);
        match HSL::new(hue as i64, sat as i64, lum as i64, FG_DEN) {
            Ok(c) => Ok(c.as_rgb()),
            Err(e) => Err(Error::InvalidHSL(e)),
        }
    }

    /// Fills the paint mask from the first 15 nibbles of a digest.
    fn paint(hash: &[u8; 16], paints: &mut [bool; 15])
        ensures
            is_mask_of(final(paints)@, hash@),
            final(paints)@ == mask_of(hash@),
    {
        let num_cols: usize = (NUM_SQUARES / 2) as usize;
        let num_rows: usize = (NUM_SQUARES - 2) as usize;
        let mut i: usize = 0;
        while i < NUM_PAINTS
            invariant
                num_cols == 3,
                num_rows == 5,
                i <= 15,
                paints@.len() == 15,
                forall|j: int|
                    0 <= j < i ==> paints@[mask_index(j)] == (nibble(hash@, j) % 2 == 0),
            decreases 15 - i,
        {
            let b = hash[i / 2];
            let nib = if i % 2 == 0 {
                (b & 0xf0) >> 4
            } else {
                b & 0x0f
            };
            assert((b & 0xf0) >> 4 == b >> 4) by (bit_vector);
            let col = 2 - i / num_rows;
            let row = i % num_rows;
            let idx = row * num_cols + col;
            assert(forall|j: int| 0 <= j < i ==> #[trigger] mask_index(j) != mask_index(i as int));
            paints[idx] = nib % 2 == 0;
            i = i + 1;
        }
        assert forall|k: int| 0 <= k < 15 implies #[trigger] paints@[k] == mask_of(hash@)[k] by {
            let j = (2 - k % 3) * 5 + k / 3;
            assert(mask_index(j) == k);
        }
        assert(paints@ =~= mask_of(hash@));
    }

    /// The picture written in `format`, as base64 text.
    fn format(&self, format: ImageFormat) -> (r: Result<String, Error>)
        ensures
            r is Ok ==> r->Ok_0@ == encoded(
                image_file_of(raw_image(self@), (self@.size * 7) as u32, format),
            ),
            r is Ok <==> image_encodable(raw_image(self@), (self@.size * 7) as u32, format),
            r is Err ==> r->Err_0 is SaveImage,
    {
        let side = self.side();
        let raw = self.image();
        text_of_encoding(write_image(raw, side, format))
    }

    /// The picture as a PNG file, in base64.
    pub fn png(&self) -> (r: Result<String, Error>)
        ensures
            r is Ok ==> r->Ok_0@ == encoded(
                image_file_of(raw_image(self@), (self@.size * 7) as u32, ImageFormat::Png),
            ),
            r is Ok <==> image_encodable(
                raw_image(self@),
                (self@.size * 7) as u32,
                ImageFormat::Png,
            ),
            r is Err ==> r->Err_0 is SaveImage,
    {
        self.format(ImageFormat::Png)
    }

    /// The picture as a JPEG file at the highest quality, in base64.
    pub fn jpeg(&self) -> (r: Result<String, Error>)
        ensures
            r is Ok ==> r->Ok_0@ == encoded(
                image_file_of(
                    raw_image(self@),
                    (self@.size * 7) as u32,
                    ImageFormat::Jpeg(JPEG_QUALITY),
                ),
            ),
            r is Ok <==> image_encodable(
                raw_image(self@),
                (self@.size * 7) as u32,
                ImageFormat::Jpeg(JPEG_QUALITY),
            ),
            r is Err ==> r->Err_0 is SaveImage,
    {
        self.format(ImageFormat::Jpeg(JPEG_QUALITY))
    }

    /// The picture as a GIF file, in base64.
    pub fn gif(&self) -> (r: Result<String, Error>)
        ensures
            r is Ok ==> r->Ok_0@ == encoded(
                image_file_of(raw_image(self@), (self@.size * 7) as u32, ImageFormat::Gif),
            ),
            r is Ok <==> image_encodable(
                raw_image(self@),
                (self@.size * 7) as u32,
                ImageFormat::Gif,
            ),
            r is Err ==> r->Err_0 is SaveImage,
    {
        self.format(ImageFormat::Gif)
    }

    /// The side of one cell, in pixels.
    pub fn size(&self) -> (r: u32)
        ensures
            r as nat == self@.size,
            0 < r <= u32::MAX / NUM_SQUARES,
    {
        proof {
            use_type_invariant(self);
        }
        self.size
    }

    /// The side of the whole picture, in pixels.
    pub fn side(&self) -> (r: u32)
        ensures
            r as nat == self@.size * 7,
    {
        proof {
            use_type_invariant(self);
        }
        self.size * NUM_SQUARES
    }

    pub fn foreground(&self) -> (r: RGB)
        ensures
            r == self@.foreground,
    {
        self.foreground
    }

    pub fn background(&self) -> (r: RGB)
        ensures
            r == self@.background,
    {
        self.background
    }

    /// The paint mask, row by row over 3 columns.
    pub fn paints(&self) -> (r: [bool; 15])
        ensures
            r@ == self@.paints,
    {
        self.paints
    }

    /// The color of pixel `(x, y)`.
    pub fn pixel(&self, x: u32, y: u32) -> (r: RGB)
        ensures
            r == pixel_color(self@, x as int, y as int),
    {
        proof {
            use_type_invariant(self);
        }
        let c = x / self.size;
        let row = y / self.size;
        let mc: i64 = if c <= 3 {
            c as i64
        } else {
            6 - c as i64
        };
        if 1 <= row && row <= 5 && 1 <= mc && mc <= 3 && self.paints[((row - 1) * 3 + (mc - 1) as u32) as usize] {
            self.foreground
        } else {
            self.background
        }
    }

    /// The whole picture as raw RGB bytes, three per pixel, row by row: the
    /// background everywhere but in the painted cells and their mirror images.
    pub fn image(&self) -> (r: Vec<u8>)
        ensures
            r@ == raw_image(self@),
            r@.len() == 3 * (self@.size * 7) * (self@.size * 7),
    {
        let side = self.side();
        let ghost m = self@;
        let mut out: Vec<u8> = Vec::new();
        let mut y: u32 = 0;
        while y < side
            invariant
                m == self@,
                side == m.size * 7,
                y <= side,
                out@ == image_bytes(m, side as nat, y as nat),
            decreases side - y,
        {
            let mut x: u32 = 0;
            while x < side
                invariant
                    m == self@,
                    side == m.size * 7,
                    y < side,
                    x <= side,
                    out@ == image_bytes(m, side as nat, y as nat) + row_bytes(m, y as int, x as nat),
                decreases side - x,
            {
                let c = self.pixel(x, y);
                out.push(c.red);
                out.push(c.green);
                out.push(c.blue);
                proof {
                    assert(out@ =~= image_bytes(m, side as nat, y as nat) + row_bytes(m, y as int, (x + 1) as nat));
                }
                x = x + 1;
            }
            y = y + 1;
        }
        proof {
            lemma_image_bytes_len(m, side as nat, side as nat);
        }
        out
    }
}

} // verus!
