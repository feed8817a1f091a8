//! Image analysis: icon descriptors, grid detection and maze
//! classification over an intensity matrix.

use vstd::prelude::*;

use crate::brief::{hamming, lemma_hamming_nonneg, lemma_hamming_self, word_bit, Brief};
use crate::features::{feature_data, FEATURE_COUNT};
use crate::field::Cell;
use crate::pixmat::{mat_cells, mat_from_rows, mat_get, PixMatrix};

verus! {

/// Threshold for closeness to existing feature data.
pub const DETECT_THRESHOLD: i32 = 30;

/// Icon classes that a maze cell can carry.
#[derive(Copy, Clone, Debug, PartialEq, Eq, Structural)]
pub enum Mark {
    Empty,
    Wall,
    Entrance,
    Treasury,
    Subtreasury,
    FinalBoss,
    OtherBoss,
    Ladder,
    Trap,
    Luck,
    RaiseWall,
    Direction,
    Scarecrow,
    Fountain,
}

/// Stored data that describes icon features: a descriptor center and two
/// 192-bit payloads, one for each of the two sub-pixel centerings.
#[derive(Copy, Clone, Debug)]
pub struct FeatureData {
    pub x: i32,
    pub y: i32,
    pub bits_1: [u32; 6],
    pub bits_2: [u32; 6],
}

/// Icon description: two BRIEF descriptors taken at centers one column
/// apart, to tolerate sub-pixel centering.
#[derive(Clone, Debug)]
pub struct FeatureVector(pub [Brief; 2]);

/// The distance of a descriptor pair, given as raw signatures, to a
/// stored feature vector: the smallest Hamming distance among the
/// aligned and one-column-shifted pairings.
pub open spec fn fv_distance_bits(b0: Seq<bool>, b1: Seq<bool>, o: FeatureVector) -> int {
    let d0 = hamming(b0, o.0[0].b@, 192);
    let d1 = hamming(b0, o.0[1].b@, 192);
    let d2 = hamming(b1, o.0[1].b@, 192);
    if d0 <= d1 && d0 <= d2 {
        d0
    } else if d1 <= d2 {
        d1
    } else {
        d2
    }
}

/// The distance of two feature vectors.
pub open spec fn fv_distance_spec(s: FeatureVector, o: FeatureVector) -> int {
    fv_distance_bits(s.0[0].b@, s.0[1].b@, o)
}

impl FeatureVector {
    /// Both descriptors carry full signatures.
    pub open spec fn wf(self) -> bool {
        self.0[0].wf() && self.0[1].wf()
    }

    /// Rebuild a feature vector from its stored catalogue form.
    pub fn from_data(feature_data: &FeatureData) -> (r: Self)
        requires
            feature_data.x < i32::MAX,
        ensures
            r.wf(),
            r.0[0].x == feature_data.x,
            r.0[0].y == feature_data.y,
            r.0[1].x == feature_data.x + 1,
            r.0[1].y == feature_data.y,
            forall|i: int| 0 <= i < 192 ==> r.0[0].b@[i] == word_bit(feature_data.bits_1@, i),
            forall|i: int| 0 <= i < 192 ==> r.0[1].b@[i] == word_bit(feature_data.bits_2@, i),
    {
        FeatureVector(
            [
                Brief::from_words(feature_data.x, feature_data.y, &feature_data.bits_1),
                Brief::from_words(feature_data.x + 1, feature_data.y, &feature_data.bits_2),
            ],
        )
    }

    /// The stored catalogue form of this feature vector, inverse of
    /// [`FeatureVector::from_data`].
    pub fn get_data(&self) -> (r: FeatureData)
        requires
            self.wf(),
        ensures
            r.x == self.0[0].x,
            r.y == self.0[0].y,
            forall|i: int| 0 <= i < 192 ==> word_bit(r.bits_1@, i) == self.0[0].b@[i],
            forall|i: int| 0 <= i < 192 ==> word_bit(r.bits_2@, i) == self.0[1].b@[i],
    {
        FeatureData {
            x: self.0[0].x,
            y: self.0[0].y,
            bits_1: self.0[0].to_words(),
            bits_2: self.0[1].to_words(),
        }
    }

    /// Distance to another feature vector.
    pub fn distance(&self, other: &FeatureVector) -> (r: i32)
        requires
            self.wf(),
            other.wf(),
        ensures
            r as int == fv_distance_spec(*self, *other),
            0 <= r <= 192,
    {
        let d0 = self.0[0].distance(&other.0[0]);
        let d1 = self.0[0].distance(&other.0[1]);
        let d2 = self.0[1].distance(&other.0[1]);
        proof {
            lemma_hamming_nonneg(self.0[0].b@, other.0[0].b@, 192);
            lemma_hamming_nonneg(self.0[0].b@, other.0[1].b@, 192);
            lemma_hamming_nonneg(self.0[1].b@, other.0[1].b@, 192);
        }
        let m = if d0 <= d1 && d0 <= d2 {
            d0
        } else if d1 <= d2 {
            d1
        } else {
            d2
        };
        m as i32
    }
}

/// The distance of any feature vector to itself is zero.
pub proof fn lemma_distance_self(v: FeatureVector)
    ensures
        fv_distance_spec(v, v) == 0,
{
    lemma_hamming_self(v.0[0].b@, 192);
    lemma_hamming_self(v.0[1].b@, 192);
    lemma_hamming_nonneg(v.0[0].b@, v.0[1].b@, 192);
}

/// What `image`'s Catmull-Rom resampling returns for a grayscale buffer:
/// a function of the input image and the target size alone.
pub uninterp spec fn resize_of(data: Seq<u8>, w: int, h: int, nw: int, nh: int) -> Seq<u8>;

/// Relies on image's `imageops::resize` with the Catmull-Rom filter: the
/// result is an `nw` by `nh` grayscale buffer determined by the input
/// buffer and the sizes alone.
#[verifier::external_body]
fn resize_gray(data: &Vec<u8>, w: usize, h: usize, nw: usize, nh: usize) -> (r: Vec<u8>)
    requires
        data@.len() == w * h,
        1 <= w <= 4096,
        1 <= h <= 4096,
        1 <= nw <= 4096,
        1 <= nh <= 4096,
    ensures
        r@.len() == nw * nh,
        r@ == resize_of(data@, w as int, h as int, nw as int, nh as int),
{
    let img = image::GrayImage::from_vec(w as u32, h as u32, data.clone()).unwrap();
    let out = image::imageops::resize(
        &img,
        nw as u32,
        nh as u32,
        image::imageops::FilterType::CatmullRom,
    );
    out.into_raw()
}

/// Relies on imageproc's `contrast::threshold` with the binary rule: each
/// output pixel is 255 where the input exceeds the threshold, else 0.
#[verifier::external_body]
fn threshold_gray(data: &Vec<u8>, w: usize, h: usize, t: u8) -> (r: Vec<u8>)
    requires
        data@.len() == w * h,
        1 <= w <= 4096,
        1 <= h <= 4096,
    ensures
        r@.len() == data@.len(),
        forall|i: int|
            0 <= i < data@.len() ==> r@[i] == (if data@[i] > t {
                255u8
            } else {
                0u8
            }),
{
    let img = image::GrayImage::from_vec(w as u32, h as u32, data.clone()).unwrap();
    imageproc::contrast::threshold(&img, t, imageproc::contrast::ThresholdType::Binary).into_raw()
}

/// Smallest of the first `n` bytes (255 when there are none).
pub open spec fn byte_min(data: Seq<u8>, n: int) -> int
    decreases n,
{
    if n <= 0 {
        255
    } else if data[n - 1] <= byte_min(data, n - 1) {
        data[n - 1] as int
    } else {
        byte_min(data, n - 1)
    }
}

/// Largest of the first `n` bytes (zero when there are none).
pub open spec fn byte_max(data: Seq<u8>, n: int) -> int
    decreases n,
{
    if n <= 0 {
        0
    } else if data[n - 1] >= byte_max(data, n - 1) {
        data[n - 1] as int
    } else {
        byte_max(data, n - 1)
    }
}

/// The binarization threshold of a patch: zero for a near-uniform patch,
/// otherwise a weighted blend of its extremes.
pub open spec fn patch_thresh(data: Seq<u8>) -> u8 {
    let mn = byte_min(data, data.len() as int);
    let mx = byte_max(data, data.len() as int);
    if mx - mn < 30 {
        0u8
    } else {
        ((2 * mn + 5 * mx) / 7) as u8
    }
}

/// The patch binarized at its threshold.
pub open spec fn binarized(data: Seq<u8>) -> Seq<u8> {
    Seq::new(data.len(), |i: int|
        if data[i] > patch_thresh(data) {
            255u8
        } else {
            0u8
        })
}

/// `x` clamped into `[lo, hi]`.
pub open spec fn clampi(x: int, lo: int, hi: int) -> int {
    if x < lo {
        lo
    } else if x > hi {
        hi
    } else {
        x
    }
}

/// Value of a 24 by 24 image at `(x, y)`, coordinates clamped to the
/// image.
pub open spec fn at24(img: Seq<u8>, x: int, y: int) -> int {
    img[clampi(y, 0, 23) * 24 + clampi(x, 0, 23)] as int
}

/// A small integer binomial smoothing at `(x, y)` of a 24 by 24 image:
/// the 3 by 3 neighborhood weighted 1-2-1 in each direction, divided by
/// sixteen.
pub open spec fn blur_at(img: Seq<u8>, x: int, y: int) -> int {
    (at24(img, x - 1, y - 1) + 2 * at24(img, x, y - 1) + at24(img, x + 1, y - 1) + 2 * at24(
        img,
        x - 1,
        y,
    ) + 4 * at24(img, x, y) + 2 * at24(img, x + 1, y) + at24(img, x - 1, y + 1) + 2 * at24(
        img,
        x,
        y + 1,
    ) + at24(img, x + 1, y + 1)) / 16
}

/// The whole 24 by 24 image smoothed.
pub open spec fn blurred(img: Seq<u8>) -> Seq<u8> {
    Seq::new(576, |i: int| blur_at(img, i % 24, i / 24) as u8)
}

/// Number of bright pixels among the first `n` of a binary image.
pub open spec fn cm_cnt(img: Seq<u8>, n: int) -> int
    decreases n,
{
    if n <= 0 {
        0
    } else {
        cm_cnt(img, n - 1) + (if img[n - 1] > 0 {
            1int
        } else {
            0int
        })
    }
}

/// Sum of the column coordinates of the bright pixels among the first
/// `n`.
pub open spec fn cm_sx(img: Seq<u8>, n: int) -> int
    decreases n,
{
    if n <= 0 {
        0
    } else {
        cm_sx(img, n - 1) + (if img[n - 1] > 0 {
            (n - 1) % 24
        } else {
            0int
        })
    }
}

/// Sum of the row coordinates of the bright pixels among the first `n`.
pub open spec fn cm_sy(img: Seq<u8>, n: int) -> int
    decreases n,
{
    if n <= 0 {
        0
    } else {
        cm_sy(img, n - 1) + (if img[n - 1] > 0 {
            (n - 1) / 24
        } else {
            0int
        })
    }
}

/// Column of the binary center of mass of a 24 by 24 image (the middle
/// when no pixel is bright).
pub open spec fn center_x(img: Seq<u8>) -> int {
    if cm_cnt(img, 576) == 0 {
        12
    } else {
        cm_sx(img, 576) / cm_cnt(img, 576)
    }
}

/// Row of the binary center of mass.
pub open spec fn center_y(img: Seq<u8>) -> int {
    if cm_cnt(img, 576) == 0 {
        12
    } else {
        cm_sy(img, 576) / cm_cnt(img, 576)
    }
}

/// First-point column offset of comparison pair `k` of the fixed
/// deterministic pair set, in `[-4, 4]`.
pub open spec fn pair_dx1(k: int) -> int {
    (7 * k + 3) % 9 - 4
}

/// First-point row offset of comparison pair `k`.
pub open spec fn pair_dy1(k: int) -> int {
    (5 * k + 1) % 9 - 4
}

/// Second-point column offset of comparison pair `k`.
pub open spec fn pair_dx2(k: int) -> int {
    (3 * k + 5) % 9 - 4
}

/// Second-point row offset of comparison pair `k`.
pub open spec fn pair_dy2(k: int) -> int {
    (k + 2) % 9 - 4
}

/// Signature bit `k` of a descriptor centered at `(cx, cy)` on a 24 by
/// 24 image: whether the first point of pair `k` is darker than the
/// second.
pub open spec fn brief_bit(img: Seq<u8>, cx: int, cy: int, k: int) -> bool {
    at24(img, cx + pair_dx1(k), cy + pair_dy1(k)) < at24(img, cx + pair_dx2(k), cy + pair_dy2(k))
}

/// The resampled binary form of a patch: binarized at its threshold and
/// resized to 24 by 24.
pub open spec fn patch_resized(patch: Seq<u8>, w: int, h: int) -> Seq<u8> {
    resize_of(binarized(patch), w, h, 24, 24)
}

/// Signature bit `k` of the descriptor a patch yields, with the center
/// shifted right by `shift` columns.
pub open spec fn fv_bit(patch: Seq<u8>, w: int, h: int, shift: int, k: int) -> bool {
    let rs = patch_resized(patch, w, h);
    brief_bit(blurred(rs), center_x(rs) + shift, center_y(rs), k)
}

/// A nonempty patch has its minimum below its maximum, both bytes.
proof fn lemma_byte_min_le_max(data: Seq<u8>, n: int)
    requires
        n >= 1,
    ensures
        0 <= byte_min(data, n) <= 255,
        0 <= byte_max(data, n) <= 255,
        byte_min(data, n) <= byte_max(data, n),
    decreases n,
{
    if n > 1 {
        lemma_byte_min_le_max(data, n - 1);
    } else {
        assert(byte_min(data, 0) == 255);
        assert(byte_max(data, 0) == 0);
    }
}

/// The smallest and largest byte of a patch.
#[verifier::loop_isolation(false)]
fn patch_extremes(data: &Vec<u8>) -> (r: (u8, u8))
    requires
        data@.len() >= 1,
    ensures
        r.0 as int == byte_min(data@, data@.len() as int),
        r.1 as int == byte_max(data@, data@.len() as int),
{
    let mut mn: u8 = 255;
    let mut mx: u8 = 0;
    let mut i: usize = 0;
    while i < data.len()
        invariant
            i <= data@.len(),
            mn as int == byte_min(data@, i as int),
            mx as int == byte_max(data@, i as int),
        decreases data@.len() - i,
    {
        let v = data[i];
        if v <= mn {
            mn = v;
        }
        if v >= mx {
            mx = v;
        }
        i = i + 1;
    }
    (mn, mx)
}

/// Value of a 24 by 24 image at possibly out-of-range coordinates,
/// clamped to the image.
fn get24(img: &Vec<u8>, x: i32, y: i32) -> (r: u8)
    requires
        img@.len() == 576,
        -100 <= x <= 100,
        -100 <= y <= 100,
    ensures
        r as int == at24(img@, x as int, y as int),
{
    let cx = if x < 0 {
        0
    } else if x > 23 {
        23
    } else {
        x
    };
    let cy = if y < 0 {
        0
    } else if y > 23 {
        23
    } else {
        y
    };
    img[(cy * 24 + cx) as usize]
}

/// The smoothed form of a 24 by 24 image.
#[verifier::loop_isolation(false)]
fn blur24(img: &Vec<u8>) -> (r: Vec<u8>)
    requires
        img@.len() == 576,
    ensures
        r@ == blurred(img@),
        r@.len() == 576,
{
    let mut out: Vec<u8> = Vec::new();
    let mut i: usize = 0;
    while i < 576
        invariant
            i <= 576,
            out@.len() == i,
            forall|t: int| 0 <= t < i ==> out@[t] == blurred(img@)[t],
        decreases 576 - i,
    {
        let x = (i % 24) as i32;
        let y = (i / 24) as i32;
        let sum: u32 = get24(img, x - 1, y - 1) as u32 + 2 * get24(img, x, y - 1) as u32 + get24(
            img,
            x + 1,
            y - 1,
        ) as u32 + 2 * get24(img, x - 1, y) as u32 + 4 * get24(img, x, y) as u32 + 2 * get24(
            img,
            x + 1,
            y,
        ) as u32 + get24(img, x - 1, y + 1) as u32 + 2 * get24(img, x, y + 1) as u32 + get24(
            img,
            x + 1,
            y + 1,
        ) as u32;
        out.push((sum / 16) as u8);
        i = i + 1;
    }
    proof {
        assert(out@ =~= blurred(img@));
    }
    out
}

/// The binary center of mass of a 24 by 24 image.
#[verifier::loop_isolation(false)]
fn center_mass24(img: &Vec<u8>) -> (r: (usize, usize))
    requires
        img@.len() == 576,
    ensures
        r.0 as int == center_x(img@),
        r.1 as int == center_y(img@),
        r.0 <= 23,
        r.1 <= 23,
{
    let mut cnt: u32 = 0;
    let mut sx: u32 = 0;
    let mut sy: u32 = 0;
    let mut i: usize = 0;
    while i < 576
        invariant
            i <= 576,
            cnt as int == cm_cnt(img@, i as int),
            sx as int == cm_sx(img@, i as int),
            sy as int == cm_sy(img@, i as int),
            cnt <= i,
            sx <= 23 * cnt,
            sy <= 23 * cnt,
        decreases 576 - i,
    {
        if img[i] > 0 {
            proof {
                assert(sx + (i as int % 24) <= 23 * (cnt + 1)) by (nonlinear_arith)
                    requires
                        sx <= 23 * cnt,
                        0 <= i as int % 24 <= 23,
                ;
                assert(sy + (i as int / 24) <= 23 * (cnt + 1)) by (nonlinear_arith)
                    requires
                        sy <= 23 * cnt,
                        0 <= i as int / 24 <= 23,
                ;
            }
            sx = sx + (i % 24) as u32;
            sy = sy + (i / 24) as u32;
            cnt = cnt + 1;
        }
        i = i + 1;
    }
    if cnt == 0 {
        (12, 12)
    } else {
        proof {
            assert(sx as int / cnt as int <= 23 && sy as int / cnt as int <= 23)
                by (nonlinear_arith)
                requires
                    sx <= 23 * cnt,
                    sy <= 23 * cnt,
                    cnt >= 1,
            ;
        }
        ((sx / cnt) as usize, (sy / cnt) as usize)
    }
}

/// The 192 signature bits of the descriptor centered at `(cx, cy)` on a
/// smoothed 24 by 24 image.
#[verifier::loop_isolation(false)]
fn brief_bits(img: &Vec<u8>, cx: usize, cy: usize) -> (r: Vec<bool>)
    requires
        img@.len() == 576,
        cx <= 24,
        cy <= 23,
    ensures
        r@.len() == 192,
        forall|k: int| 0 <= k < 192 ==> r@[k] == brief_bit(img@, cx as int, cy as int, k),
{
    let mut out: Vec<bool> = Vec::new();
    let mut k: usize = 0;
    while k < 192
        invariant
            k <= 192,
            out@.len() == k,
            forall|t: int| 0 <= t < k ==> out@[t] == brief_bit(img@, cx as int, cy as int, t),
        decreases 192 - k,
    {
        let dx1 = ((7 * k + 3) % 9) as i32 - 4;
        let dy1 = ((5 * k + 1) % 9) as i32 - 4;
        let dx2 = ((3 * k + 5) % 9) as i32 - 4;
        let dy2 = ((k + 2) % 9) as i32 - 4;
        let v1 = get24(img, cx as i32 + dx1, cy as i32 + dy1);
        let v2 = get24(img, cx as i32 + dx2, cy as i32 + dy2);
        out.push(v1 < v2);
        k = k + 1;
    }
    out
}

impl FeatureVector {
    /// Build the feature vector of a grayscale patch: binarize it at its
    /// threshold, resample the binary patch to 24 by 24, smooth it, find
    /// its binary center of mass, and read the 192 comparison bits there
    /// and one column to the right.
    pub fn from_image(width: usize, height: usize, data: &Vec<u8>) -> (r: FeatureVector)
        requires
            data@.len() == width * height,
            1 <= width <= 4096,
            1 <= height <= 4096,
        ensures
            r.wf(),
            r.0[0].x as int == center_x(patch_resized(data@, width as int, height as int)),
            r.0[0].y as int == center_y(patch_resized(data@, width as int, height as int)),
            r.0[1].x as int == center_x(patch_resized(data@, width as int, height as int)) + 1,
            r.0[1].y == r.0[0].y,
            forall|k: int|
                0 <= k < 192 ==> r.0[0].b@[k] == fv_bit(data@, width as int, height as int, 0, k),
            forall|k: int|
                0 <= k < 192 ==> r.0[1].b@[k] == fv_bit(data@, width as int, height as int, 1, k),
    {
        proof {
            assert(width * height >= 1) by (nonlinear_arith)
                requires
                    width >= 1,
                    height >= 1,
            ;
            lemma_byte_min_le_max(data@, data@.len() as int);
        }
        let (mn, mx) = patch_extremes(data);
        let thresh: u8 = if mx - mn < 30 {
            0
        } else {
            ((2 * (mn as u16) + 5 * (mx as u16)) / 7) as u8
        };
        proof {
            assert(thresh == patch_thresh(data@));
        }
        let bin = threshold_gray(data, width, height, thresh);
        proof {
            assert(bin@ =~= binarized(data@));
        }
        let rs = resize_gray(&bin, width, height, 24, 24);
        let smooth = blur24(&rs);
        let (cx, cy) = center_mass24(&rs);
        let b0 = brief_bits(&smooth, cx, cy);
        let b1 = brief_bits(&smooth, cx + 1, cy);
        FeatureVector(
            [
                Brief { x: cx as i32, y: cy as i32, b: b0 },
                Brief { x: cx as i32 + 1, y: cy as i32, b: b1 },
            ],
        )
    }
}

/// A uniform grid: a cell pitch (gutter included) and the offset and
/// count of the rows and columns. `size == 0` means "no grid".
#[derive(Copy, Clone, Debug)]
pub struct Grid {
    pub size: usize,
    pub row_offset: usize,
    pub col_offset: usize,
    pub row_count: usize,
    pub col_count: usize,
}

impl Default for Grid {
    /// The "no grid" value.
    fn default() -> (r: Self)
        ensures
            r.size == 0,
            r.row_offset == 0,
            r.col_offset == 0,
            r.row_count == 0,
            r.col_count == 0,
    {
        Grid { size: 0, row_offset: 0, col_offset: 0, row_count: 0, col_count: 0 }
    }
}

/// A flexible grid: a common cell size and the explicit pixel offsets of
/// the row and column gutters.
#[derive(Clone, Debug)]
#[verifier::ext_equal]
pub struct FlexGrid {
    /// Largest common cell size.
    pub cellsize: usize,
    /// Row offsets (where background starts).
    pub rows: Vec<usize>,
    /// Column offsets (where background starts).
    pub cols: Vec<usize>,
}

/// Cell rows of a flexible grid: one fewer than its row offsets.
pub open spec fn flex_rows_spec(rows: Seq<usize>) -> int {
    if rows.len() == 0 {
        0
    } else {
        rows.len() - 1
    }
}

impl FlexGrid {
    /// The row gutter offsets.
    pub open spec fn rows_view(self) -> Seq<usize> {
        self.rows@
    }

    /// The column gutter offsets.
    pub open spec fn cols_view(self) -> Seq<usize> {
        self.cols@
    }

    /// A grid small enough for the simulation lattice.
    pub open spec fn wf(self) -> bool {
        self.rows_view().len() <= 21 && self.cols_view().len() <= 21
    }

    /// Build a flexible grid from its parts.
    pub fn from_parts(cellsize: usize, rows: Vec<usize>, cols: Vec<usize>) -> (r: Self)
        ensures
            r.cellsize == cellsize,
            r.rows_view() == rows@,
            r.cols_view() == cols@,
    {
        FlexGrid { cellsize, rows, cols }
    }

    /// Number of cells of the grid.
    pub fn num_cells(&self) -> (r: usize)
        requires
            self.wf(),
        ensures
            r == flex_rows_spec(self.rows_view()) * flex_rows_spec(self.cols_view()),
    {
        let nr = if self.rows.len() == 0 {
            0
        } else {
            self.rows.len() - 1
        };
        let nc = if self.cols.len() == 0 {
            0
        } else {
            self.cols.len() - 1
        };
        proof {
            assert(nr * nc <= 400) by (nonlinear_arith)
                requires
                    nr <= 20,
                    nc <= 20,
                    0 <= nr,
                    0 <= nc,
            ;
        }
        nr * nc
    }

    /// Number of cell rows.
    pub fn num_rows(&self) -> (r: usize)
        requires
            self.rows_view().len() >= 1,
        ensures
            r == flex_rows_spec(self.rows_view()),
    {
        self.rows.len() - 1
    }

    /// Number of cell columns.
    pub fn num_cols(&self) -> (r: usize)
        requires
            self.cols_view().len() >= 1,
        ensures
            r == flex_rows_spec(self.cols_view()),
    {
        self.cols.len() - 1
    }

    /// The `idx`-th row gutter offset, or zero past the end.
    pub fn row(&self, idx: usize) -> (r: usize)
        ensures
            r == (if idx < self.rows_view().len() {
                self.rows_view()[idx as int]
            } else {
                0usize
            }),
    {
        if idx < self.rows.len() {
            self.rows[idx]
        } else {
            0
        }
    }

    /// The `idx`-th column gutter offset, or zero past the end.
    pub fn col(&self, idx: usize) -> (r: usize)
        ensures
            r == (if idx < self.cols_view().len() {
                self.cols_view()[idx as int]
            } else {
                0usize
            }),
    {
        if idx < self.cols.len() {
            self.cols[idx]
        } else {
            0
        }
    }
}

/// Luminance of one RGBA pixel: a fixed linear combination of the color
/// channels, scaled to stay within a channel sum times three.
pub open spec fn luma_of(r: u8, g: u8, b: u8) -> int {
    (30 * r + 59 * g + 11 * b) / 34
}

/// The luminance of each pixel of an RGBA buffer holding `n` pixels.
pub open spec fn luma_seq(data: Seq<u8>, n: int) -> Seq<u32> {
    Seq::new(n as nat, |p: int| luma_of(data[4 * p], data[4 * p + 1], data[4 * p + 2]) as u32)
}

/// Sum of `n` values of `s` starting at `lo`.
pub open spec fn range_sum(s: Seq<u32>, lo: int, n: int) -> int
    decreases n,
{
    if n <= 0 {
        0
    } else {
        range_sum(s, lo, n - 1) + s[lo + n - 1]
    }
}

/// Sum of the per-row means of the first `n` rows of a `w`-wide buffer.
pub open spec fn row_means_sum(s: Seq<u32>, w: int, n: int) -> int
    decreases n,
{
    if n <= 0 {
        0
    } else {
        row_means_sum(s, w, n - 1) + range_sum(s, (n - 1) * w, w) / w
    }
}

/// Largest of the first `n` values of `s` (zero when there are none).
pub open spec fn prefix_max(s: Seq<u32>, n: int) -> int
    decreases n,
{
    if n <= 0 {
        0
    } else if s[n - 1] >= prefix_max(s, n - 1) {
        s[n - 1] as int
    } else {
        prefix_max(s, n - 1)
    }
}

/// Smallest of the first `n` values of `s` (`u32::MAX` when none).
pub open spec fn prefix_min(s: Seq<u32>, n: int) -> int
    decreases n,
{
    if n <= 0 {
        u32::MAX as int
    } else if s[n - 1] <= prefix_min(s, n - 1) {
        s[n - 1] as int
    } else {
        prefix_min(s, n - 1)
    }
}

/// The grand mean intensity: the mean of the per-row means.
pub open spec fn grand_mean(s: Seq<u32>, w: int, h: int) -> int {
    row_means_sum(s, w, h) / h
}

/// The dark-mode normalization: when the grand mean says the image is
/// bright-on-dark, every value is inverted and rescaled into the same
/// range; otherwise the buffer is unchanged. A uniform image (shifted
/// maximum equal to shifted minimum) is left unchanged.
pub open spec fn dark_adjusted(s: Seq<u32>, w: int, h: int) -> Seq<u32> {
    let avg = grand_mean(s, w, h);
    if avg < 384 {
        let mx = (prefix_max(s, w * h) + avg) / 2;
        let mn = (prefix_min(s, w * h) + avg) / 2;
        if mx > mn {
            Seq::new((w * h) as nat, |i: int|
                ((768 * (if s[i] < mx {
                    mx - s[i]
                } else {
                    0
                })) / (mx - mn)) as u32)
        } else {
            s
        }
    } else {
        s
    }
}

/// The intensity buffer built from an RGBA frame: per-pixel luminance
/// with dark-mode normalization applied.
pub open spec fn intensity_spec(data: Seq<u8>, w: int, h: int) -> Seq<u32> {
    dark_adjusted(luma_seq(data, w * h), w, h)
}

/// Analyses a rasterized frame: holds its intensity matrix and the known
/// icon features to classify cells against.
pub struct ImageProcessor {
    pixels: PixMatrix,
    width: usize,
    height: usize,
    known_features: Vec<(FeatureVector, Mark)>,
    debug_output: bool,
}

impl ImageProcessor {
    /// The intensity matrix contents, as rows of values.
    pub closed spec fn px_view(self) -> Seq<Seq<u32>> {
        mat_cells(self.pixels)
    }

    /// Width of the frame in pixels.
    pub closed spec fn width_spec(self) -> int {
        self.width as int
    }

    /// Height of the frame in pixels.
    pub closed spec fn height_spec(self) -> int {
        self.height as int
    }

    /// The known icon features.
    pub closed spec fn features_view(self) -> Seq<(FeatureVector, Mark)> {
        self.known_features@
    }

    /// Well-formedness: the matrix has the stated size, every intensity
    /// is within the bounded range, and the catalogue is loaded.
    pub open spec fn wf(self) -> bool {
        &&& 1 <= self.width_spec() <= 10000
        &&& 1 <= self.height_spec() <= 10000
        &&& self.px_view().len() == self.height_spec()
        &&& forall|i: int|
            0 <= i < self.height_spec() ==> (#[trigger] self.px_view()[i]).len()
                == self.width_spec()
        &&& forall|i: int, j: int|
            0 <= i < self.height_spec() && 0 <= j < self.width_spec() ==> self.px_view()[i][j]
                <= 500_000
        &&& self.features_view().len() == FEATURE_COUNT
        &&& forall|k: int|
            0 <= k < self.features_view().len() ==> (#[trigger] self.features_view()[k]).0.wf()
    }

    /// Intensity at row `i`, column `j`.
    pub open spec fn px_at(self, i: int, j: int) -> u32 {
        self.px_view()[i][j]
    }

    /// Build the processor from an RGBA byte buffer, row-major, four
    /// bytes per pixel, alpha ignored: each pixel becomes its luminance,
    /// and dark frames are normalized.
    pub fn from_rgba_slice(width: usize, height: usize, data: &Vec<u8>) -> (r: Self)
        requires
            1 <= width <= 10000,
            1 <= height <= 10000,
            data@.len() == 4 * width * height,
        ensures
            r.wf(),
            r.width_spec() == width,
            r.height_spec() == height,
            forall|i: int, j: int|
                0 <= i < height && 0 <= j < width ==> r.px_at(i, j) == intensity_spec(
                    data@,
                    width as int,
                    height as int,
                )[i * width + j],
            !r.debug_spec(),
    {
        Self::from_rgba(width, height, data, false)
    }

    /// Whether diagnostic output was requested.
    pub closed spec fn debug_spec(self) -> bool {
        self.debug_output
    }

    /// Build the processor, choosing diagnostic mode.
    #[verifier::loop_isolation(false)]
    pub fn from_rgba(width: usize, height: usize, data: &Vec<u8>, debug: bool) -> (r: Self)
        requires
            1 <= width <= 10000,
            1 <= height <= 10000,
            data@.len() == 4 * width * height,
        ensures
            r.wf(),
            r.width_spec() == width,
            r.height_spec() == height,
            forall|i: int, j: int|
                0 <= i < height && 0 <= j < width ==> r.px_at(i, j) == intensity_spec(
                    data@,
                    width as int,
                    height as int,
                )[i * width + j],
            r.debug_spec() == debug,
    {
        proof {
            assert(width * height <= 100_000_000 && 4 * width * height == 4 * (width * height))
                by (nonlinear_arith)
                requires
                    1 <= width <= 10000,
                    1 <= height <= 10000,
            ;
        }
        let n = width * height;
        let mut lum: Vec<u32> = Vec::new();
        let mut p: usize = 0;
        while p < n
            invariant
                p <= n,
                lum@.len() == p,
                forall|q: int| 0 <= q < p ==> lum@[q] == luma_seq(data@, n as int)[q],
                forall|q: int| 0 <= q < p ==> lum@[q] <= 750,
            decreases n - p,
        {
            let rv = data[4 * p] as u32;
            let gv = data[4 * p + 1] as u32;
            let bv = data[4 * p + 2] as u32;
            let y = (30 * rv + 59 * gv + 11 * bv) / 34;
            lum.push(y);
            p = p + 1;
        }
        proof {
            assert(lum@ =~= luma_seq(data@, n as int));
        }
        adjust_dark_mode(&mut lum, width, height);
        let pixels = mat_from_rows(height, width, &lum);
        proof {
            assert forall|i: int, j: int| 0 <= i < height && 0 <= j < width implies {
                &&& mat_cells(pixels)[i][j] == intensity_spec(
                    data@,
                    width as int,
                    height as int,
                )[i * width + j]
                &&& mat_cells(pixels)[i][j] <= 500_000
            } by {
                assert(0 <= i * width + j < width * height) by (nonlinear_arith)
                    requires
                        0 <= i < height,
                        0 <= j < width,
                ;
            }
        }
        let catalogue = feature_data();
        let mut known_features: Vec<(FeatureVector, Mark)> = Vec::new();
        let mut k: usize = 0;
        while k < catalogue.len()
            invariant
                k <= catalogue@.len(),
                known_features@.len() == k,
                forall|t: int|
                    0 <= t < k ==> (#[trigger] known_features@[t]).0.wf(),
            decreases catalogue@.len() - k,
        {
            let fv = FeatureVector::from_data(&catalogue[k].0);
            let mk = catalogue[k].1;
            known_features.push((fv, mk));
            k = k + 1;
        }
        ImageProcessor { pixels, width, height, known_features, debug_output: debug }
    }

    /// Height of the frame.
    pub fn height(&self) -> (r: u32)
        requires
            self.wf(),
        ensures
            r as int == self.height_spec(),
    {
        self.height as u32
    }

    /// Width of the frame.
    pub fn width(&self) -> (r: u32)
        requires
            self.wf(),
        ensures
            r as int == self.width_spec(),
    {
        self.width as u32
    }

    /// The frame exported back as grayscale RGBA: the red, green and blue
    /// channels each hold the intensity divided by three (clamped to one
    /// byte), and alpha is opaque.
    #[verifier::loop_isolation(false)]
    pub fn get_image_data_vector(&self) -> (r: Vec<u8>)
        requires
            self.wf(),
        ensures
            r@.len() == 4 * (self.width_spec() * self.height_spec()),
            forall|p: int|
                0 <= p < self.width_spec() * self.height_spec() ==> {
                    let gray = gray_byte(
                        #[trigger] self.px_at(p / self.width_spec(), p % self.width_spec()),
                    );
                    r@[4 * p] == gray && r@[4 * p + 1] == gray && r@[4 * p + 2] == gray && r@[4 * p
                        + 3] == 255
                },
            forall|i: int, j: int|
                0 <= i < self.height_spec() && 0 <= j < self.width_spec() ==> {
                    let p = i * self.width_spec() + j;
                    let gray = gray_byte(#[trigger] self.px_at(i, j));
                    r@[4 * p] == gray && r@[4 * p + 1] == gray && r@[4 * p + 2] == gray && r@[4 * p
                        + 3] == 255
                },
    {
        let ghost wd = self.width_spec();
        let ghost ht = self.height_spec();
        proof {
            assert(wd * ht <= 100_000_000) by (nonlinear_arith)
                requires
                    0 < wd <= 10000,
                    0 < ht <= 10000,
            ;
        }
        let n = self.width * self.height;
        let mut out: Vec<u8> = Vec::new();
        let mut p: usize = 0;
        while p < n
            invariant
                p <= n,
                n == wd * ht,
                out@.len() == 4 * p,
                forall|q: int|
                    0 <= q < p ==> {
                        let gray = gray_byte(#[trigger] self.px_at(q / wd, q % wd));
                        out@[4 * q] == gray && out@[4 * q + 1] == gray && out@[4 * q + 2] == gray
                            && out@[4 * q + 3] == 255
                    },
            decreases n - p,
        {
            proof {
                assert(p as int / wd < ht) by (nonlinear_arith)
                    requires
                        0 <= p < wd * ht,
                        0 < wd,
                ;
            }
            let i = p / self.width;
            let j = p % self.width;
            let v = mat_get(&self.pixels, i, j);
            let g3 = v / 3;
            let gray: u8 = if g3 > 255 {
                255
            } else {
                g3 as u8
            };
            out.push(gray);
            out.push(gray);
            out.push(gray);
            out.push(255);
            p = p + 1;
        }
        proof {
            assert forall|i: int, j: int|
                0 <= i < ht && 0 <= j < wd implies {
                let q = i * wd + j;
                let gray = gray_byte(#[trigger] self.px_at(i, j));
                &&& out@[4 * q] == gray
                &&& out@[4 * q + 1] == gray
                &&& out@[4 * q + 2] == gray
                &&& out@[4 * q + 3] == 255
            } by {
                assert(0 <= i * wd + j < wd * ht && (i * wd + j) / wd == i && (i * wd + j) % wd
                    == j) by (nonlinear_arith)
                    requires
                        0 <= i < ht,
                        0 <= j < wd,
                        0 < wd,
                ;
            }
        }
        out
    }
}

/// A candidate periodic line pattern: a period (gutter gap), the offset
/// of the first line, and how many lines were matched.
#[derive(Copy, Clone, Debug)]
pub struct GridPeriod {
    pub period: usize,
    pub offset: usize,
    pub count: usize,
}

/// The projection sample `k` of a periodic pattern: the value at
/// `o + k * (p + 1)`.
pub open spec fn sample_at(col: Seq<u32>, o: int, p: int, k: int) -> int {
    col[o + k * (p + 1)] as int
}

/// Sum of the first `n` samples of the pattern.
pub open spec fn sample_sum(col: Seq<u32>, o: int, p: int, n: int) -> int
    decreases n,
{
    if n <= 0 {
        0
    } else {
        sample_sum(col, o, p, n - 1) + sample_at(col, o, p, n - 1)
    }
}

/// Absolute difference of a value from a mean.
pub open spec fn mean_diff(v: int, avg: int) -> int {
    if v >= avg {
        v - avg
    } else {
        avg - v
    }
}

/// Length of the longest prefix of the first `n` samples that stay
/// within `GRID_SENSITIVITY` of `avg`.
pub open spec fn count_near(col: Seq<u32>, o: int, p: int, avg: int, n: int) -> int
    decreases n,
{
    if n <= 0 {
        0
    } else if count_near(col, o, p, avg, n - 1) == n - 1 && mean_diff(sample_at(col, o, p, n - 1), avg) < 15 {
        n
    } else {
        count_near(col, o, p, avg, n - 1)
    }
}

/// Length of the longest prefix of the first `n` samples that differ
/// from `avg` by more than `GRID_SENSITIVITY`.
pub open spec fn count_far(col: Seq<u32>, o: int, p: int, avg: int, n: int) -> int
    decreases n,
{
    if n <= 0 {
        0
    } else if count_far(col, o, p, avg, n - 1) == n - 1 && mean_diff(sample_at(col, o, p, n - 1), avg) > 15 {
        n
    } else {
        count_far(col, o, p, avg, n - 1)
    }
}

/// The number of lines after expanding a candidate of `c0` matched lines:
/// the run is extended while samples stay near the mean of the matched
/// ones, then cut back so that the midpoints between lines all stand out
/// from that mean.
#[verifier::opaque]
pub open spec fn expanded_count(col: Seq<u32>, o: int, p: int, c0: int) -> int {
    let max_count = (col.len() - o - 1) / (p + 1) + 1;
    let avg = sample_sum(col, o, p, c0) / c0;
    let c1 = if c0 < max_count {
        count_near(col, o, p, avg, max_count)
    } else {
        c0
    };
    if c1 == 0 {
        0
    } else {
        let mid = count_far(col, o + p / 2, p, avg, c1 - 1);
        if mid < c1 - 1 {
            mid + 1
        } else {
            c1
        }
    }
}

impl GridPeriod {
    /// Expand the line count to the maximum possible: extend the run
    /// while samples stay near the mean of the matched lines, then
    /// truncate where the gaps between lines stop standing out.
    #[verifier::loop_isolation(false)]
    pub fn expand(&mut self, col: &Vec<u32>)
        requires
            old(self).offset < col@.len(),
            1 <= old(self).count,
            1 <= old(self).period <= 100_000,
            old(self).offset + (old(self).count - 1) * (old(self).period + 1) < col@.len(),
            old(self).count <= (col@.len() - old(self).offset - 1) / (old(self).period + 1) + 1,
            col@.len() <= 100_000,
            forall|i: int| 0 <= i < col@.len() ==> col@[i] <= 500_000,
        ensures
            final(self).period == old(self).period,
            final(self).offset == old(self).offset,
            final(self).count as int == expanded_count(
                col@,
                old(self).offset as int,
                old(self).period as int,
                old(self).count as int,
            ),
    {
        proof {
            reveal(expanded_count);
        }
        let o = self.offset;
        let p = self.period;
        let len = col.len();
        let max_count = (len - o - 1) / (p + 1) + 1;
        proof {
            assert((max_count - 1) as int == (len - o - 1) as int / (p + 1) as int);
            assert(((len - o - 1) as int / (p + 1) as int) * (p + 1) <= len - o - 1)
                by (nonlinear_arith)
                requires
                    p >= 1,
                    o + 1 <= len,
            ;
        }
        let mut total: u64 = 0;
        let mut k: usize = 0;
        while k < self.count
            invariant
                k <= self.count,
                total as int == sample_sum(col@, o as int, p as int, k as int),
                total <= 500_000 * k,
            decreases self.count - k,
        {
            proof {
                assert(o + k * (p + 1) <= o + (self.count - 1) * (p + 1)) by (nonlinear_arith)
                    requires
                        k < self.count,
                        p >= 1,
                ;
            }
            proof {
                assert(total + col@[o + k * (p + 1)] <= 500_000 * (k + 1)) by (nonlinear_arith)
                    requires
                        total <= 500_000 * k,
                        col@[o as int + k as int * (p as int + 1)] <= 500_000,
                ;
                assert(500_000 * (k + 1) <= 500_000 * 100_000) by (nonlinear_arith)
                    requires
                        k + 1 <= 100_000,
                ;
            }
            total = total + col[o + k * (p + 1)] as u64;
            k = k + 1;
        }
        let grid_avg: u32 = (total / (self.count as u64)) as u32;
        proof {
            assert(total / (self.count as u64) <= 500_000) by (nonlinear_arith)
                requires
                    total <= 500_000 * self.count,
                    self.count >= 1,
            ;
            assert(grid_avg as int == sample_sum(col@, o as int, p as int, self.count as int)
                / self.count as int);
        }
        if self.count < max_count {
            let mut run: usize = 0;
            let mut stop = false;
            while run < max_count && !stop
                invariant
                    run <= max_count,
                    stop ==> run >= 1,
                    !stop ==> run as int == count_near(
                        col@,
                        o as int,
                        p as int,
                        grid_avg as int,
                        run as int,
                    ),
                    stop ==> run as int > count_near(
                        col@,
                        o as int,
                        p as int,
                        grid_avg as int,
                        max_count as int,
                    ) >= run - 1,
                    stop ==> count_near(col@, o as int, p as int, grid_avg as int, max_count as int)
                        == run - 1,
                decreases max_count - run + (if stop { 0int } else { 1int }),
            {
                proof {
                    assert(o + run * (p + 1) <= o + (max_count - 1) * (p + 1)) by (nonlinear_arith)
                        requires
                            run < max_count,
                            p >= 1,
                    ;
                }
                let v = col[o + run * (p + 1)];
                let d = if v >= grid_avg {
                    v - grid_avg
                } else {
                    grid_avg - v
                };
                if d < 15 {
                    run = run + 1;
                    proof {
                        lemma_count_near_step(col@, o as int, p as int, grid_avg as int, run as int);
                    }
                } else {
                    stop = true;
                    proof {
                        lemma_count_near_stopped(
                            col@,
                            o as int,
                            p as int,
                            grid_avg as int,
                            run as int,
                            max_count as int,
                        );
                    }
                    run = run + 1;
                }
            }
            if stop {
                self.count = run - 1;
            } else {
                self.count = run;
            }
        }
        if self.count == 0 {
            return ;
        }
        let c1 = self.count;
        proof {
            assert((c1 - 1) * (p + 1) <= (max_count - 1) * (p + 1)) by (nonlinear_arith)
                requires
                    c1 <= max_count,
                    p >= 1,
            ;
        }
        let mut mid: usize = 0;
        let mut stop2 = false;
        while mid < c1 - 1 && !stop2
            invariant
                mid <= c1 - 1,
                1 <= c1,
                c1 <= max_count,
                o + (c1 - 1) * (p + 1) < len,
                !stop2 ==> mid as int == count_far(
                    col@,
                    o as int + p as int / 2,
                    p as int,
                    grid_avg as int,
                    mid as int,
                ),
                stop2 ==> count_far(
                    col@,
                    o as int + p as int / 2,
                    p as int,
                    grid_avg as int,
                    c1 as int - 1,
                ) == mid,
            decreases c1 - 1 - mid + (if stop2 { 0int } else { 1int }),
        {
            proof {
                assert(o + p / 2 + mid * (p + 1) < o + (c1 - 1) * (p + 1)) by (nonlinear_arith)
                    requires
                        mid < c1 - 1,
                        p >= 1,
                        0 <= p / 2 <= p,
                ;
            }
            let v = col[o + p / 2 + mid * (p + 1)];
            let d = if v >= grid_avg {
                v - grid_avg
            } else {
                grid_avg - v
            };
            if d > 15 {
                mid = mid + 1;
                proof {
                    lemma_count_far_step(
                        col@,
                        o as int + p as int / 2,
                        p as int,
                        grid_avg as int,
                        mid as int,
                    );
                }
            } else {
                stop2 = true;
                proof {
                    lemma_count_far_stopped(
                        col@,
                        o as int + p as int / 2,
                        p as int,
                        grid_avg as int,
                        mid as int,
                        c1 as int - 1,
                    );
                }
            }
        }
        if stop2 {
            self.count = mid + 1;
        }
    }
}

/// A full near-prefix of length `n` is reported by `count_near` as `n`.
proof fn lemma_count_near_step(col: Seq<u32>, o: int, p: int, avg: int, n: int)
    requires
        n >= 1,
        count_near(col, o, p, avg, n - 1) == n - 1,
        mean_diff(sample_at(col, o, p, n - 1), avg) < 15,
    ensures
        count_near(col, o, p, avg, n) == n,
{
}

/// Once a sample fails the nearness test, the count over any longer
/// range stays at the failing position.
proof fn lemma_count_near_stopped(col: Seq<u32>, o: int, p: int, avg: int, n: int, m: int)
    requires
        n >= 0,
        count_near(col, o, p, avg, n) == n,
        mean_diff(sample_at(col, o, p, n), avg) >= 15,
        m >= n + 1,
    ensures
        count_near(col, o, p, avg, m) == n,
    decreases m,
{
    if m > n + 1 {
        lemma_count_near_stopped(col, o, p, avg, n, m - 1);
    }
}

/// A full far-prefix of length `n` is reported by `count_far` as `n`.
proof fn lemma_count_far_step(col: Seq<u32>, o: int, p: int, avg: int, n: int)
    requires
        n >= 1,
        count_far(col, o, p, avg, n - 1) == n - 1,
        mean_diff(sample_at(col, o, p, n - 1), avg) > 15,
    ensures
        count_far(col, o, p, avg, n) == n,
{
}

/// Once a midpoint fails the distinctness test, the count over any
/// longer range stays at the failing position.
proof fn lemma_count_far_stopped(col: Seq<u32>, o: int, p: int, avg: int, n: int, m: int)
    requires
        n >= 0,
        count_far(col, o, p, avg, n) == n,
        mean_diff(sample_at(col, o, p, n), avg) <= 15,
        m >= n + 1,
    ensures
        count_far(col, o, p, avg, m) == n,
    decreases m,
{
    if m > n + 1 {
        lemma_count_far_stopped(col, o, p, avg, n, m - 1);
    }
}

/// Mean of the whole projection vector.
pub open spec fn proj_avg(cols: Seq<u32>) -> int {
    range_sum(cols, 0, cols.len() as int) / cols.len() as int
}

/// Whether position `i` of the projection lies on the icon-colored side
/// of the mean (below it on a bright frame, above it on a dark one).
pub open spec fn icon_side(cols: Seq<u32>, avg: int, dark: bool, i: int) -> bool {
    (cols[i] < avg) != dark
}

/// Whether at least twelve samples with stride `p + 1` starting at `o`
/// fit into a projection of length `len`.
pub open spec fn fits_12(len: int, o: int, p: int) -> bool {
    (len - o + p - 1) / (p + 1) >= 12
}

/// Whether sample `k` of the pattern lies on the icon-colored side.
pub open spec fn side_sample(cols: Seq<u32>, avg: int, dark: bool, o: int, p: int, k: int) -> bool {
    icon_side(cols, avg, dark, o + k * (p + 1))
}

/// Whether the first twelve samples of the pattern all lie on the
/// icon-colored side of the mean.
pub open spec fn seed_ok(cols: Seq<u32>, avg: int, dark: bool, o: int, p: int) -> bool {
    forall|k: int| 0 <= k < 12 ==> side_sample(cols, avg, dark, o, p, k)
}

/// Whether `(o, p)` is a candidate pattern the search considers.
pub open spec fn cand_ok(cols: Seq<u32>, avg: int, dark: bool, o: int, p: int) -> bool {
    icon_side(cols, avg, dark, o) && fits_12(cols.len() as int, o, p) && seed_ok(
        cols,
        avg,
        dark,
        o,
        p,
    )
}

/// How many starting offsets the search walks.
pub open spec fn seek_limit(len: int, lo: int) -> int {
    if 12 * (lo + 1) <= len {
        len - 12 * (lo + 1)
    } else {
        len
    }
}

/// Whether a candidate with `c` lines beats the best seen so far.
pub open spec fn better(prev: Option<GridPeriod>, c: int) -> bool {
    match prev {
        Option::None => true,
        Option::Some(g) => g.count < c,
    }
}

/// The best candidate after trying periods `lo` up to `lo + n` at offset
/// `o`, starting from `acc`: a candidate replaces the best only when it
/// matched strictly more lines, so the first maximum in search order is
/// kept.
pub open spec fn scan_periods(
    cols: Seq<u32>,
    avg: int,
    dark: bool,
    o: int,
    lo: int,
    n: int,
    acc: Option<GridPeriod>,
) -> Option<GridPeriod>
    decreases n,
{
    if n <= 0 {
        acc
    } else {
        let prev = scan_periods(cols, avg, dark, o, lo, n - 1, acc);
        let p = lo + n - 1;
        let c = expanded_count(cols, o, p, 12);
        if cand_ok(cols, avg, dark, o, p) && c > 0 && better(prev, c) {
            Option::Some(GridPeriod { period: p as usize, offset: o as usize, count: c as usize })
        } else {
            prev
        }
    }
}

/// The best candidate after trying the first `n` offsets with every
/// period in `[lo, hi)`.
pub open spec fn scan_offsets(
    cols: Seq<u32>,
    avg: int,
    dark: bool,
    lo: int,
    hi: int,
    n: int,
) -> Option<GridPeriod>
    decreases n,
{
    if n <= 0 {
        Option::None
    } else {
        scan_periods(cols, avg, dark, n - 1, lo, hi - lo, scan_offsets(cols, avg, dark, lo, hi, n - 1))
    }
}

/// The periodic line pattern that the search finds in a projection: the
/// candidate with the most matched lines, earliest offset then smallest
/// period winning ties; none when no candidate matched any lines.
pub open spec fn best_grid_period(cols: Seq<u32>, known: Option<usize>) -> Option<GridPeriod> {
    let avg = proj_avg(cols);
    let dark = avg < 128;
    let lo = match known {
        Option::None => 12,
        Option::Some(p) => p as int,
    };
    let hi = match known {
        Option::None => 60,
        Option::Some(p) => p as int + 1,
    };
    scan_offsets(cols, avg, dark, lo, hi, seek_limit(cols.len() as int, lo))
}

/// At an offset off the icon-colored side, no period yields a candidate.
proof fn lemma_scan_periods_no_side(
    cols: Seq<u32>,
    avg: int,
    dark: bool,
    o: int,
    lo: int,
    n: int,
    acc: Option<GridPeriod>,
)
    requires
        !icon_side(cols, avg, dark, o),
    ensures
        scan_periods(cols, avg, dark, o, lo, n, acc) == acc,
    decreases n,
{
    if n > 0 {
        lemma_scan_periods_no_side(cols, avg, dark, o, lo, n - 1, acc);
    }
}

/// One search step: the update of the best candidate by the pattern
/// `(o, p)`.
pub open spec fn step_candidate(
    cols: Seq<u32>,
    avg: int,
    dark: bool,
    o: int,
    p: int,
    acc: Option<GridPeriod>,
) -> Option<GridPeriod> {
    let c = expanded_count(cols, o, p, 12);
    if cand_ok(cols, avg, dark, o, p) && c > 0 && better(acc, c) {
        Option::Some(GridPeriod { period: p as usize, offset: o as usize, count: c as usize })
    } else {
        acc
    }
}

/// Try the pattern `(o, p)` and update the best candidate found so far.
#[verifier::loop_isolation(false)]
#[verifier::rlimit(100)]
fn try_candidate(cols: &Vec<u32>, avg: u32, dark: bool, o: usize, p: usize, best: Option<GridPeriod>) -> (r:
    Option<GridPeriod>)
    requires
        1 <= cols@.len() <= 100_000,
        forall|i: int| 0 <= i < cols@.len() ==> cols@[i] <= 500_000,
        o < cols@.len(),
        1 <= p <= 100,
    ensures
        r == step_candidate(cols@, avg as int, dark, o as int, p as int, best),
{
    let ghost avgi = avg as int;
    let len = cols.len();
    let side = (cols[o] < avg) != dark;
    let fits = (len - o + p - 1) / (p + 1) >= 12;
    let mut is_cand = false;
    if side && fits {
        proof {
            assert(12 * (p + 1) <= len - o + p - 1) by (nonlinear_arith)
                requires
                    (len - o + p - 1) as int / (p + 1) as int >= 12,
                    p >= 1,
                    o < len,
            ;
        }
        let mut k: usize = 0;
        let mut allok = true;
        while k < 12
            invariant
                k <= 12,
                o + 11 * (p + 1) < len,
                allok == (forall|j: int|
                    0 <= j < k ==> side_sample(cols@, avgi, dark, o as int, p as int, j)),
            decreases 12 - k,
        {
            proof {
                assert(o + k * (p + 1) <= o + 11 * (p + 1)) by (nonlinear_arith)
                    requires
                        k <= 11,
                        p >= 1,
                ;
            }
            let v = cols[o + k * (p + 1)];
            proof {
                assert(side_sample(cols@, avgi, dark, o as int, p as int, k as int) == ((v < avg)
                    != dark));
            }
            if !((v < avg) != dark) {
                allok = false;
            }
            k = k + 1;
        }
        is_cand = allok;
    }
    if is_cand {
        let mut grid = GridPeriod { period: p, offset: o, count: 12 };
        proof {
            assert(12 <= (len - o - 1) / (p + 1) + 1) by (nonlinear_arith)
                requires
                    o + 11 * (p + 1) < len,
                    p >= 1,
                    o < len,
            ;
        }
        grid.expand(cols);
        let replace = grid.count > 0 && (match best {
            Option::None => true,
            Option::Some(b) => b.count < grid.count,
        });
        if replace {
            return Option::Some(grid);
        }
    }
    best
}

/// The mean of a projection vector.
#[verifier::loop_isolation(false)]
fn proj_mean(cols: &Vec<u32>) -> (r: u32)
    requires
        1 <= cols@.len() <= 100_000,
        forall|i: int| 0 <= i < cols@.len() ==> cols@[i] <= 500_000,
    ensures
        r as int == proj_avg(cols@),
        r <= 500_000,
{
    let len = cols.len();
    let mut total: u64 = 0;
    let mut t: usize = 0;
    while t < len
        invariant
            t <= len,
            total as int == range_sum(cols@, 0, t as int),
            total <= 500_000 * t,
        decreases len - t,
    {
        proof {
            assert(total + cols@[t as int] <= 500_000 * (t + 1)) by (nonlinear_arith)
                requires
                    total <= 500_000 * t,
                    cols@[t as int] <= 500_000,
            ;
            assert(500_000 * (t + 1) <= 500_000 * 100_000) by (nonlinear_arith)
                requires
                    t + 1 <= 100_000,
            ;
        }
        total = total + cols[t] as u64;
        t = t + 1;
    }
    proof {
        assert(total / (len as u64) <= 500_000) by (nonlinear_arith)
            requires
                total <= 500_000 * len,
                len >= 1,
        ;
    }
    (total / (len as u64)) as u32
}

/// Find periodic lines in a projection vector.
///
/// The search tries every starting offset on the icon-colored side of
/// the mean and every candidate period (the whole range, or just the
/// known one), requires twelve evenly spaced samples on that side,
/// expands each hit to as many lines as match, and returns the first
/// candidate with the most lines.
#[verifier::loop_isolation(false)]
pub fn find_grid_period(cols: &Vec<u32>, known: Option<usize>) -> (r: Option<GridPeriod>)
    requires
        1 <= cols@.len() <= 100_000,
        forall|i: int| 0 <= i < cols@.len() ==> cols@[i] <= 500_000,
        match known {
            Option::Some(p) => 1 <= p <= 100,
            Option::None => true,
        },
    ensures
        r == best_grid_period(cols@, known),
{
    let len = cols.len();
    let avg: u32 = proj_mean(cols);
    let ghost avgi = avg as int;
    let dark = avg < 128;
    let lo: usize = match known {
        Option::None => 12,
        Option::Some(p) => p,
    };
    let hi: usize = match known {
        Option::None => 60,
        Option::Some(p) => p + 1,
    };
    let limit: usize = if 12 * (lo + 1) <= len {
        len - 12 * (lo + 1)
    } else {
        len
    };
    let mut best: Option<GridPeriod> = Option::None;
    let mut o: usize = 0;
    while o < limit
        invariant
            o <= limit,
            limit == seek_limit(len as int, lo as int),
            limit <= len,
            best == scan_offsets(cols@, avgi, dark, lo as int, hi as int, o as int),
        decreases limit - o,
    {
        let ghost entry = best;
        let mut p = lo;
        while p < hi
            invariant
                lo <= p <= hi,
                o < limit,
                best == scan_periods(
                    cols@,
                    avgi,
                    dark,
                    o as int,
                    lo as int,
                    p as int - lo as int,
                    entry,
                ),
            decreases hi - p,
        {
            best = try_candidate(cols, avg, dark, o, p, best);
            p = p + 1;
        }
        o = o + 1;
    }
    best
}

/// `count_near` never exceeds the range it runs over.
proof fn lemma_count_near_le(col: Seq<u32>, o: int, p: int, avg: int, n: int)
    requires
        n >= 0,
    ensures
        0 <= count_near(col, o, p, avg, n) <= n,
    decreases n,
{
    if n > 0 {
        lemma_count_near_le(col, o, p, avg, n - 1);
    }
}

/// `count_far` never exceeds the range it runs over.
proof fn lemma_count_far_le(col: Seq<u32>, o: int, p: int, avg: int, n: int)
    requires
        n >= 0,
    ensures
        0 <= count_far(col, o, p, avg, n) <= n,
    decreases n,
{
    if n > 0 {
        lemma_count_far_le(col, o, p, avg, n - 1);
    }
}

/// An expanded count stays within the number of samples that fit.
proof fn lemma_expanded_count_le(col: Seq<u32>, o: int, p: int, c0: int)
    requires
        0 <= o < col.len(),
        p >= 1,
        1 <= c0 <= (col.len() - o - 1) / (p + 1) + 1,
    ensures
        expanded_count(col, o, p, c0) <= (col.len() - o - 1) / (p + 1) + 1,
        expanded_count(col, o, p, c0) <= col.len(),
{
    reveal(expanded_count);
    let max_count = (col.len() - o - 1) / (p + 1) + 1;
    let avg = sample_sum(col, o, p, c0) / c0;
    lemma_count_near_le(col, o, p, avg, max_count);
    let c1 = if c0 < max_count {
        count_near(col, o, p, avg, max_count)
    } else {
        c0
    };
    if c1 > 0 {
        lemma_count_far_le(col, o + p / 2, p, avg, c1 - 1);
    }
    assert((col.len() - o - 1) / (p + 1) <= col.len() - o - 1) by (nonlinear_arith)
        requires
            p >= 1,
            0 <= o < col.len(),
    ;
}

/// Any winner of the period scan lies in the searched ranges, is a
/// candidate, and its count is that candidate's expanded line count.
proof fn lemma_scan_periods_bounds(
    cols: Seq<u32>,
    avg: int,
    dark: bool,
    o: int,
    lo: int,
    n: int,
    hi: int,
    limit: int,
    acc: Option<GridPeriod>,
)
    requires
        1 <= lo <= hi <= 1000,
        0 <= n <= hi - lo,
        0 <= o < limit,
        limit <= cols.len(),
        cols.len() <= 100_000,
        match acc {
            Option::None => true,
            Option::Some(g) => lo <= g.period < hi && g.offset < limit && 1 <= g.count
                <= cols.len() && cand_ok(cols, avg, dark, g.offset as int, g.period as int)
                && g.count as int == expanded_count(cols, g.offset as int, g.period as int, 12),
        },
    ensures
        match scan_periods(cols, avg, dark, o, lo, n, acc) {
            Option::None => true,
            Option::Some(g) => lo <= g.period < hi && g.offset < limit && 1 <= g.count
                <= cols.len() && cand_ok(cols, avg, dark, g.offset as int, g.period as int)
                && g.count as int == expanded_count(cols, g.offset as int, g.period as int, 12),
        },
    decreases n,
{
    if n > 0 {
        lemma_scan_periods_bounds(cols, avg, dark, o, lo, n - 1, hi, limit, acc);
        let p = lo + n - 1;
        if cand_ok(cols, avg, dark, o, p) && expanded_count(cols, o, p, 12) > 0 {
            assert(fits_12(cols.len() as int, o, p));
            assert(12 <= (cols.len() - o + p - 1) / (p + 1));
            assert(12 <= (cols.len() - o - 1) / (p + 1) + 1) by (nonlinear_arith)
                requires
                    (cols.len() - o + p - 1) / (p + 1) >= 12,
                    p >= 1,
                    0 <= o < cols.len(),
            ;
            lemma_expanded_count_le(cols, o, p, 12);
        }
    }
}

/// Any winner of the offset scan lies in the searched ranges, is a
/// candidate, and its count is that candidate's expanded line count.
proof fn lemma_scan_offsets_bounds(
    cols: Seq<u32>,
    avg: int,
    dark: bool,
    lo: int,
    hi: int,
    n: int,
)
    requires
        1 <= lo <= hi <= 1000,
        0 <= n <= cols.len(),
        cols.len() <= 100_000,
    ensures
        match scan_offsets(cols, avg, dark, lo, hi, n) {
            Option::None => true,
            Option::Some(g) => lo <= g.period < hi && g.offset < n && 1 <= g.count <= cols.len()
                && cand_ok(cols, avg, dark, g.offset as int, g.period as int) && g.count as int
                == expanded_count(cols, g.offset as int, g.period as int, 12),
        },
    decreases n,
{
    if n > 0 {
        lemma_scan_offsets_bounds(cols, avg, dark, lo, hi, n - 1);
        let prev = scan_offsets(cols, avg, dark, lo, hi, n - 1);
        lemma_scan_periods_bounds(cols, avg, dark, n - 1, lo, hi - lo, hi, n, prev);
    }
}

/// Any winner of the whole search lies in the searched ranges, is a
/// candidate pattern, and matched exactly its expanded line count.
pub proof fn lemma_best_grid_period_bounds(cols: Seq<u32>, known: Option<usize>)
    requires
        1 <= cols.len() <= 100_000,
        match known {
            Option::Some(p) => 1 <= p <= 100,
            Option::None => true,
        },
    ensures
        match best_grid_period(cols, known) {
            Option::None => true,
            Option::Some(g) => {
                &&& (match known {
                    Option::None => 12 <= g.period < 60,
                    Option::Some(p) => g.period == p,
                })
                &&& g.offset < cols.len()
                &&& 1 <= g.count <= cols.len()
                &&& cand_ok(cols, proj_avg(cols), proj_avg(cols) < 128, g.offset as int, g.period as int)
                &&& g.count as int == expanded_count(cols, g.offset as int, g.period as int, 12)
            },
        },
{
    let avg = proj_avg(cols);
    let dark = avg < 128;
    let lo = match known {
        Option::None => 12int,
        Option::Some(p) => p as int,
    };
    let hi = match known {
        Option::None => 60int,
        Option::Some(p) => p as int + 1,
    };
    lemma_scan_offsets_bounds(cols, avg, dark, lo, hi, seek_limit(cols.len() as int, lo));
}

/// The number of lines the current best candidate matched (zero when
/// there is none).
pub open spec fn best_count(b: Option<GridPeriod>) -> int {
    match b {
        Option::None => 0,
        Option::Some(g) => g.count as int,
    }
}

/// Scanning more periods never loses matched lines, and afterwards no
/// scanned candidate beats the best.
proof fn lemma_scan_periods_max(
    cols: Seq<u32>,
    avg: int,
    dark: bool,
    o: int,
    lo: int,
    n: int,
    acc: Option<GridPeriod>,
)
    requires
        0 <= n,
        1 <= lo,
        0 <= o < cols.len(),
        cols.len() <= 100_000,
    ensures
        best_count(scan_periods(cols, avg, dark, o, lo, n, acc)) >= best_count(acc),
        forall|pp: int|
            0 <= pp < n && cand_ok(cols, avg, dark, o, lo + pp) ==> #[trigger] expanded_count(
                cols,
                o,
                lo + pp,
                12,
            ) <= best_count(scan_periods(cols, avg, dark, o, lo, n, acc)),
    decreases n,
{
    if n > 0 {
        lemma_scan_periods_max(cols, avg, dark, o, lo, n - 1, acc);
        let p = lo + n - 1;
        if cand_ok(cols, avg, dark, o, p) {
            assert(12 <= (cols.len() - o + p - 1) / (p + 1));
            assert(12 <= (cols.len() - o - 1) / (p + 1) + 1) by (nonlinear_arith)
                requires
                    (cols.len() - o + p - 1) / (p + 1) >= 12,
                    p >= 1,
                    0 <= o < cols.len(),
            ;
            lemma_expanded_count_le(cols, o, p, 12);
        }
    }
}

/// Scanning more offsets never loses matched lines, and afterwards no
/// scanned candidate beats the best.
proof fn lemma_scan_offsets_max(
    cols: Seq<u32>,
    avg: int,
    dark: bool,
    lo: int,
    hi: int,
    n: int,
)
    requires
        1 <= lo,
        lo <= hi,
        0 <= n <= cols.len(),
        cols.len() <= 100_000,
    ensures
        forall|oo: int, pp: int|
            0 <= oo < n && lo <= pp < hi && cand_ok(cols, avg, dark, oo, pp)
                ==> #[trigger] expanded_count(cols, oo, pp, 12) <= best_count(
                scan_offsets(cols, avg, dark, lo, hi, n),
            ),
    decreases n,
{
    if n > 0 {
        lemma_scan_offsets_max(cols, avg, dark, lo, hi, n - 1);
        let prev = scan_offsets(cols, avg, dark, lo, hi, n - 1);
        lemma_scan_periods_max(cols, avg, dark, n - 1, lo, hi - lo, prev);
        assert forall|oo: int, pp: int|
            0 <= oo < n && lo <= pp < hi && cand_ok(cols, avg, dark, oo, pp)
                implies #[trigger] expanded_count(cols, oo, pp, 12) <= best_count(
            scan_offsets(cols, avg, dark, lo, hi, n),
        ) by {
            if oo < n - 1 {
            } else {
                assert(expanded_count(cols, oo, lo + (pp - lo), 12) <= best_count(
                    scan_periods(cols, avg, dark, n - 1, lo, hi - lo, prev),
                ));
            }
        }
    }
}

/// What the winner of the search means: no candidate in the searched
/// ranges matches more lines than the winner, and when the search
/// reports nothing, no candidate matches any line at all.
pub proof fn lemma_best_grid_period_is_best(cols: Seq<u32>, known: Option<usize>)
    requires
        1 <= cols.len() <= 100_000,
        match known {
            Option::Some(p) => 1 <= p <= 100,
            Option::None => true,
        },
    ensures
        ({
            let avg = proj_avg(cols);
            let dark = avg < 128;
            let lo = match known {
                Option::None => 12int,
                Option::Some(p) => p as int,
            };
            let hi = match known {
                Option::None => 60int,
                Option::Some(p) => p as int + 1,
            };
            let limit = seek_limit(cols.len() as int, lo);
            forall|oo: int, pp: int|
                0 <= oo < limit && lo <= pp < hi && cand_ok(cols, avg, dark, oo, pp)
                    ==> #[trigger] expanded_count(cols, oo, pp, 12) <= best_count(
                    best_grid_period(cols, known),
                )
        }),
{
    let avg = proj_avg(cols);
    let dark = avg < 128;
    let lo = match known {
        Option::None => 12int,
        Option::Some(p) => p as int,
    };
    let hi = match known {
        Option::None => 60int,
        Option::Some(p) => p as int + 1,
    };
    lemma_scan_offsets_max(cols, avg, dark, lo, hi, seek_limit(cols.len() as int, lo));
}

/// Sum over a vertical range of one column of the pixel rows.
pub open spec fn col_range_sum(px: Seq<Seq<u32>>, j: int, start: int, n: int) -> int
    decreases n,
{
    if n <= 0 {
        0
    } else {
        col_range_sum(px, j, start, n - 1) + px[start + n - 1][j]
    }
}

/// The horizontal-line projection: the mean intensity of each pixel row,
/// scaled down by three.
pub open spec fn row_proj_spec(px: Seq<Seq<u32>>, w: int, h: int) -> Seq<u32> {
    Seq::new(h as nat, |i: int| (range_sum(px[i], 0, w) / (3 * w)) as u32)
}

/// The vertical-line projection over a window of rows: the mean
/// intensity of each pixel column within the window, scaled down by
/// three.
pub open spec fn window_col_proj_spec(px: Seq<Seq<u32>>, w: int, start: int, n: int) -> Seq<u32> {
    Seq::new(w as nat, |j: int| (col_range_sum(px, j, start, n) / (3 * n)) as u32)
}

/// The uniform grid found in a frame: the row pattern found in the
/// horizontal projection, and the column pattern found in the vertical
/// projection of the detected row window, with the period locked.
pub open spec fn find_grid_spec(px: Seq<Seq<u32>>, w: int, h: int) -> Option<Grid> {
    let cols = row_proj_spec(px, w, h);
    match best_grid_period(cols, Option::None) {
        Option::None => Option::None,
        Option::Some(rg) => {
            let start = rg.offset + 1;
            let wanted = rg.count * rg.period - 1;
            let avail = h - start;
            let wlen = if wanted <= avail {
                wanted as int
            } else {
                avail
            };
            if wlen < 1 {
                Option::None
            } else {
                let cols2 = window_col_proj_spec(px, w, start as int, wlen);
                match best_grid_period(cols2, Option::Some(rg.period)) {
                    Option::None => Option::None,
                    Option::Some(cg) => Option::Some(
                        Grid {
                            size: (rg.period + 1) as usize,
                            row_offset: rg.offset,
                            row_count: (rg.count - 1) as usize,
                            col_offset: cg.offset,
                            col_count: (cg.count - 1) as usize,
                        },
                    ),
                }
            }
        },
    }
}

/// The detected grid after the sanity gate: a grid of fewer than 5 or at
/// least 20 rows or columns is rejected as "no grid".
pub open spec fn detect_grid_spec(px: Seq<Seq<u32>>, w: int, h: int) -> Grid {
    match find_grid_spec(px, w, h) {
        Option::None => Grid { size: 0, row_offset: 0, col_offset: 0, row_count: 0, col_count: 0 },
        Option::Some(g) => {
            if g.col_count >= 20 || g.row_count >= 20 || g.col_count < 5 || g.row_count < 5 {
                Grid { size: 0, row_offset: 0, col_offset: 0, row_count: 0, col_count: 0 }
            } else {
                g
            }
        },
    }
}

impl ImageProcessor {
    /// The horizontal-line projection of the frame.
    #[verifier::loop_isolation(false)]
    fn row_projection(&self) -> (r: Vec<u32>)
        requires
            self.wf(),
        ensures
            r@ == row_proj_spec(self.px_view(), self.width_spec(), self.height_spec()),
            r@.len() == self.height_spec(),
            forall|i: int| 0 <= i < r@.len() ==> r@[i] <= 500_000,
    {
        let mut out: Vec<u32> = Vec::new();
        let mut i: usize = 0;
        while i < self.height
            invariant
                i <= self.height,
                out@.len() == i,
                forall|a: int|
                    0 <= a < i ==> out@[a] == row_proj_spec(
                        self.px_view(),
                        self.width_spec(),
                        self.height_spec(),
                    )[a],
                forall|a: int| 0 <= a < i ==> out@[a] <= 500_000,
            decreases self.height - i,
        {
            let mut total: u64 = 0;
            let mut j: usize = 0;
            while j < self.width
                invariant
                    i < self.height,
                    j <= self.width,
                    total as int == range_sum(self.px_view()[i as int], 0, j as int),
                    total <= 500_000 * j,
                decreases self.width - j,
            {
                proof {
                    assert(total + self.px_view()[i as int][j as int] <= 500_000 * (j + 1))
                        by (nonlinear_arith)
                        requires
                            total <= 500_000 * j,
                            self.px_view()[i as int][j as int] <= 500_000,
                    ;
                    assert(500_000 * (j + 1) <= 500_000 * 10_000) by (nonlinear_arith)
                        requires
                            j + 1 <= 10_000,
                    ;
                }
                total = total + mat_get(&self.pixels, i, j) as u64;
                j = j + 1;
            }
            let mean = (total / (3 * self.width as u64)) as u32;
            proof {
                assert(total as int / (3 * self.width as int) <= 500_000) by (nonlinear_arith)
                    requires
                        total as int <= 500_000 * self.width as int,
                        self.width >= 1,
                ;
            }
            out.push(mean);
            i = i + 1;
        }
        proof {
            assert(out@ =~= row_proj_spec(self.px_view(), self.width_spec(), self.height_spec()));
        }
        out
    }

    /// The vertical-line projection over a window of rows.
    #[verifier::loop_isolation(false)]
    fn window_col_projection(&self, start: usize, n: usize) -> (r: Vec<u32>)
        requires
            self.wf(),
            1 <= n,
            start + n <= self.height_spec(),
        ensures
            r@ == window_col_proj_spec(self.px_view(), self.width_spec(), start as int, n as int),
            r@.len() == self.width_spec(),
            forall|i: int| 0 <= i < r@.len() ==> r@[i] <= 500_000,
    {
        let mut out: Vec<u32> = Vec::new();
        let mut j: usize = 0;
        while j < self.width
            invariant
                j <= self.width,
                out@.len() == j,
                forall|a: int|
                    0 <= a < j ==> out@[a] == window_col_proj_spec(
                        self.px_view(),
                        self.width_spec(),
                        start as int,
                        n as int,
                    )[a],
                forall|a: int| 0 <= a < j ==> out@[a] <= 500_000,
            decreases self.width - j,
        {
            let mut total: u64 = 0;
            let mut k: usize = 0;
            while k < n
                invariant
                    j < self.width,
                    k <= n,
                    total as int == col_range_sum(self.px_view(), j as int, start as int, k as int),
                    total <= 500_000 * k,
                decreases n - k,
            {
                proof {
                    assert(total + self.px_view()[start + k][j as int] <= 500_000 * (k + 1))
                        by (nonlinear_arith)
                        requires
                            total <= 500_000 * k,
                            self.px_view()[start + k][j as int] <= 500_000,
                    ;
                    assert(500_000 * (k + 1) <= 500_000 * 10_000) by (nonlinear_arith)
                        requires
                            k + 1 <= 10_000,
                    ;
                }
                total = total + mat_get(&self.pixels, start + k, j) as u64;
                k = k + 1;
            }
            let mean = (total / (3 * n as u64)) as u32;
            proof {
                assert(total as int / (3 * n as int) <= 500_000) by (nonlinear_arith)
                    requires
                        total as int <= 500_000 * n as int,
                        n >= 1,
                ;
            }
            out.push(mean);
            j = j + 1;
        }
        proof {
            assert(out@ =~= window_col_proj_spec(
                self.px_view(),
                self.width_spec(),
                start as int,
                n as int,
            ));
        }
        out
    }

    /// Detect the uniform grid on the frame, without the sanity gate.
    fn find_grid(&self) -> (r: Option<Grid>)
        requires
            self.wf(),
        ensures
            r == find_grid_spec(self.px_view(), self.width_spec(), self.height_spec()),
    {
        let cols = self.row_projection();
        let row_grid = find_grid_period(&cols, Option::None);
        proof {
            lemma_best_grid_period_bounds(cols@, Option::None);
        }
        match row_grid {
            Option::None => Option::None,
            Option::Some(rg) => {
                let start = rg.offset + 1;
                proof {
                    assert(rg.count * rg.period >= 1 && rg.count * rg.period <= 10_000 * 60)
                        by (nonlinear_arith)
                        requires
                            1 <= rg.count <= 10_000,
                            12 <= rg.period < 60,
                    ;
                }
                let wanted = rg.count * rg.period - 1;
                let avail = self.height - start;
                let wlen = if wanted <= avail {
                    wanted
                } else {
                    avail
                };
                if wlen < 1 {
                    return Option::None;
                }
                let cols2 = self.window_col_projection(start, wlen);
                let col_grid = find_grid_period(&cols2, Option::Some(rg.period));
                proof {
                    lemma_best_grid_period_bounds(cols2@, Option::Some(rg.period));
                }
                match col_grid {
                    Option::None => Option::None,
                    Option::Some(cg) => Option::Some(
                        Grid {
                            size: rg.period + 1,
                            row_offset: rg.offset,
                            row_count: rg.count - 1,
                            col_offset: cg.offset,
                            col_count: cg.count - 1,
                        },
                    ),
                }
            },
        }
    }

    /// Find a grid structure in the given frame: the detected uniform
    /// grid, or the "no grid" value when detection fails or the detected
    /// size falls outside 5 to 19 rows and columns.
    pub fn detect_grid(&self) -> (r: Grid)
        requires
            self.wf(),
        ensures
            r == detect_grid_spec(self.px_view(), self.width_spec(), self.height_spec()),
    {
        let grid = self.find_grid();
        match grid {
            Option::None => Grid::default(),
            Option::Some(g) => {
                if g.col_count >= 20 || g.row_count >= 20 || g.col_count < 5 || g.row_count < 5 {
                    Grid::default()
                } else {
                    g
                }
            },
        }
    }
}

/// Smallest value of a row segment (`u32::MAX` when empty).
pub open spec fn seg_min(row: Seq<u32>, c0: int, n: int) -> int
    decreases n,
{
    if n <= 0 {
        u32::MAX as int
    } else if row[c0 + n - 1] <= seg_min(row, c0, n - 1) {
        row[c0 + n - 1] as int
    } else {
        seg_min(row, c0, n - 1)
    }
}

/// Largest value of a row segment (zero when empty).
pub open spec fn seg_max(row: Seq<u32>, c0: int, n: int) -> int
    decreases n,
{
    if n <= 0 {
        0
    } else if row[c0 + n - 1] >= seg_max(row, c0, n - 1) {
        row[c0 + n - 1] as int
    } else {
        seg_max(row, c0, n - 1)
    }
}

/// Smallest value of a square cell of side `w`, `n` rows considered.
pub open spec fn rect_min(px: Seq<Seq<u32>>, r0: int, c0: int, w: int, n: int) -> int
    decreases n,
{
    if n <= 0 {
        u32::MAX as int
    } else if seg_min(px[r0 + n - 1], c0, w) <= rect_min(px, r0, c0, w, n - 1) {
        seg_min(px[r0 + n - 1], c0, w)
    } else {
        rect_min(px, r0, c0, w, n - 1)
    }
}

/// Largest value of a square cell of side `w`, `n` rows considered.
pub open spec fn rect_max(px: Seq<Seq<u32>>, r0: int, c0: int, w: int, n: int) -> int
    decreases n,
{
    if n <= 0 {
        0
    } else if seg_max(px[r0 + n - 1], c0, w) >= rect_max(px, r0, c0, w, n - 1) {
        seg_max(px[r0 + n - 1], c0, w)
    } else {
        rect_max(px, r0, c0, w, n - 1)
    }
}

/// Sum of absolute differences of two row segments.
pub open spec fn seg_sad(ra: Seq<u32>, rb: Seq<u32>, ca: int, cb: int, n: int) -> int
    decreases n,
{
    if n <= 0 {
        0
    } else {
        seg_sad(ra, rb, ca, cb, n - 1) + mean_diff(ra[ca + n - 1] as int, rb[cb + n - 1] as int)
    }
}

/// Sum of absolute differences of two square cells of side `w`, `n` rows
/// considered.
pub open spec fn rect_sad(px: Seq<Seq<u32>>, ra: int, ca: int, rb: int, cb: int, w: int, n: int) -> int
    decreases n,
{
    if n <= 0 {
        0
    } else {
        rect_sad(px, ra, ca, rb, cb, w, n - 1) + seg_sad(px[ra + n - 1], px[rb + n - 1], ca, cb, w)
    }
}

/// The bytes of a square cell, row-major: each intensity divided by
/// three, truncated to a byte.
pub open spec fn cell_bytes_spec(px: Seq<Seq<u32>>, r0: int, c0: int, size: int) -> Seq<u8> {
    Seq::new((size * size) as nat, |k: int| (px[r0 + k / size][c0 + k % size] / 3) as u8)
}

/// Signature `shift` (zero or one column right of center) of the icon
/// descriptor of a cell, taken on the cell's bytes resampled to 8 by 8.
#[verifier::opaque]
pub open spec fn cell_sig(px: Seq<Seq<u32>>, r0: int, c0: int, size: int, shift: int) -> Seq<
    bool,
> {
    let eight = resize_of(cell_bytes_spec(px, r0, c0, size), size, size, 8, 8);
    Seq::new(192, |k: int| fv_bit(eight, 8, 8, shift, k))
}

/// The best catalogue match of a descriptor pair among the first `n`
/// entries: the first entry of smallest distance, or no mark at
/// `i32::MAX` when there are none.
pub open spec fn closest_upto(
    feats: Seq<(FeatureVector, Mark)>,
    b0: Seq<bool>,
    b1: Seq<bool>,
    n: int,
) -> (Mark, int)
    decreases n,
{
    if n <= 0 {
        (Mark::Empty, i32::MAX as int)
    } else {
        let prev = closest_upto(feats, b0, b1, n - 1);
        let d = fv_distance_bits(b0, b1, feats[n - 1].0);
        if d < prev.1 {
            (feats[n - 1].1, d)
        } else {
            prev
        }
    }
}

impl ImageProcessor {
    /// Find the closest known feature and report its mark and distance.
    #[verifier::loop_isolation(false)]
    pub fn get_closest_feature(&self, in_vector: &FeatureVector) -> (r: (Mark, i32))
        requires
            self.wf(),
            in_vector.wf(),
        ensures
            r.0 == closest_upto(
                self.features_view(),
                in_vector.0[0].b@,
                in_vector.0[1].b@,
                self.features_view().len() as int,
            ).0,
            r.1 as int == closest_upto(
                self.features_view(),
                in_vector.0[0].b@,
                in_vector.0[1].b@,
                self.features_view().len() as int,
            ).1,
    {
        let mut best_mark = Mark::Empty;
        let mut best_dist: i32 = i32::MAX;
        let mut i: usize = 0;
        while i < self.known_features.len()
            invariant
                i <= self.features_view().len(),
                best_mark == closest_upto(
                    self.features_view(),
                    in_vector.0[0].b@,
                    in_vector.0[1].b@,
                    i as int,
                ).0,
                best_dist as int == closest_upto(
                    self.features_view(),
                    in_vector.0[0].b@,
                    in_vector.0[1].b@,
                    i as int,
                ).1,
            decreases self.features_view().len() - i,
        {
            let d = in_vector.distance(&self.known_features[i].0);
            if d < best_dist {
                best_mark = self.known_features[i].1;
                best_dist = d;
            }
            i = i + 1;
        }
        (best_mark, best_dist)
    }

    /// Smallest and largest intensity of a square cell.
    #[verifier::loop_isolation(false)]
    fn cell_extremes(&self, r0: usize, c0: usize, size: usize) -> (r: (u32, u32))
        requires
            self.wf(),
            1 <= size,
            r0 + size <= self.height_spec(),
            c0 + size <= self.width_spec(),
        ensures
            r.0 as int == rect_min(self.px_view(), r0 as int, c0 as int, size as int, size as int),
            r.1 as int == rect_max(self.px_view(), r0 as int, c0 as int, size as int, size as int),
    {
        let mut mn: u32 = u32::MAX;
        let mut mx: u32 = 0;
        let mut i: usize = 0;
        while i < size
            invariant
                i <= size,
                mn as int == rect_min(self.px_view(), r0 as int, c0 as int, size as int, i as int),
                mx as int == rect_max(self.px_view(), r0 as int, c0 as int, size as int, i as int),
            decreases size - i,
        {
            let mut rmn: u32 = u32::MAX;
            let mut rmx: u32 = 0;
            let mut j: usize = 0;
            while j < size
                invariant
                    i < size,
                    j <= size,
                    rmn as int == seg_min(self.px_view()[r0 + i], c0 as int, j as int),
                    rmx as int == seg_max(self.px_view()[r0 + i], c0 as int, j as int),
                decreases size - j,
            {
                let v = mat_get(&self.pixels, r0 + i, c0 + j);
                if v <= rmn {
                    rmn = v;
                }
                if v >= rmx {
                    rmx = v;
                }
                j = j + 1;
            }
            if rmn <= mn {
                mn = rmn;
            }
            if rmx >= mx {
                mx = rmx;
            }
            i = i + 1;
        }
        (mn, mx)
    }

    /// Sum of absolute differences between two square cells.
    #[verifier::loop_isolation(false)]
    fn cell_sad(&self, ra: usize, ca: usize, rb: usize, cb: usize, size: usize) -> (r: u64)
        requires
            self.wf(),
            1 <= size <= 4096,
            ra + size <= self.height_spec(),
            ca + size <= self.width_spec(),
            rb + size <= self.height_spec(),
            cb + size <= self.width_spec(),
        ensures
            r as int == rect_sad(
                self.px_view(),
                ra as int,
                ca as int,
                rb as int,
                cb as int,
                size as int,
                size as int,
            ),
    {
        let mut total: u64 = 0;
        let mut i: usize = 0;
        while i < size
            invariant
                i <= size,
                total as int == rect_sad(
                    self.px_view(),
                    ra as int,
                    ca as int,
                    rb as int,
                    cb as int,
                    size as int,
                    i as int,
                ),
                total <= 500_000 * (i * size),
            decreases size - i,
        {
            let mut row_total: u64 = 0;
            let mut j: usize = 0;
            while j < size
                invariant
                    i < size,
                    j <= size,
                    row_total as int == seg_sad(
                        self.px_view()[ra + i],
                        self.px_view()[rb + i],
                        ca as int,
                        cb as int,
                        j as int,
                    ),
                    row_total <= 500_000 * j,
                decreases size - j,
            {
                let a = mat_get(&self.pixels, ra + i, ca + j);
                let b = mat_get(&self.pixels, rb + i, cb + j);
                let d = if a >= b {
                    a - b
                } else {
                    b - a
                };
                proof {
                    assert(row_total + d <= 500_000 * (j + 1)) by (nonlinear_arith)
                        requires
                            row_total <= 500_000 * j,
                            d <= 500_000,
                    ;
                    assert(500_000 * (j + 1) <= 500_000 * 4096) by (nonlinear_arith)
                        requires
                            j + 1 <= 4096,
                    ;
                }
                row_total = row_total + d as u64;
                j = j + 1;
            }
            proof {
                assert(total + row_total <= 500_000 * ((i + 1) * size)) by (nonlinear_arith)
                    requires
                        total <= 500_000 * (i as int * size as int),
                        row_total <= 500_000 * size,
                ;
                assert(500_000 * ((i + 1) * size) <= 500_000 * (4096 * 4096))
                    by (nonlinear_arith)
                    requires
                        i + 1 <= 4096,
                        size <= 4096,
                ;
            }
            total = total + row_total;
            i = i + 1;
        }
        total
    }

    /// The bytes of a square cell, row-major, intensities scaled to
    /// bytes.
    #[verifier::loop_isolation(false)]
    fn cell_bytes(&self, r0: usize, c0: usize, size: usize) -> (r: Vec<u8>)
        requires
            self.wf(),
            1 <= size <= 4096,
            r0 + size <= self.height_spec(),
            c0 + size <= self.width_spec(),
        ensures
            r@ == cell_bytes_spec(self.px_view(), r0 as int, c0 as int, size as int),
            r@.len() == size * size,
    {
        proof {
            assert(size * size <= 4096 * 4096) by (nonlinear_arith)
                requires
                    size <= 4096,
            ;
        }
        let n = size * size;
        let mut out: Vec<u8> = Vec::new();
        let mut k: usize = 0;
        while k < n
            invariant
                k <= n,
                n == size * size,
                out@.len() == k,
                forall|t: int|
                    0 <= t < k ==> out@[t] == cell_bytes_spec(
                        self.px_view(),
                        r0 as int,
                        c0 as int,
                        size as int,
                    )[t],
            decreases n - k,
        {
            proof {
                assert((k as int) / (size as int) < (size as int)) by (nonlinear_arith)
                    requires
                        0 <= k,
                        k < size * size,
                        size >= 1,
                ;
            }
            let v = mat_get(&self.pixels, r0 + k / size, c0 + k % size);
            out.push((v / 3) as u8);
            k = k + 1;
        }
        proof {
            assert(out@ =~= cell_bytes_spec(self.px_view(), r0 as int, c0 as int, size as int));
        }
        out
    }
}

/// A copy of a vector of offsets.
fn copy_usize_vec(v: &Vec<usize>) -> (r: Vec<usize>)
    ensures
        r@ == v@,
{
    let mut out: Vec<usize> = Vec::new();
    let mut i: usize = 0;
    while i < v.len()
        invariant
            i <= v@.len(),
            out@.len() == i,
            forall|t: int| 0 <= t < i ==> out@[t] == v@[t],
        decreases v@.len() - i,
    {
        out.push(v[i]);
        i = i + 1;
    }
    proof {
        assert(out@ =~= v@);
    }
    out
}

/// Whether the wall/passage test sees a near-uniform cell.
pub open spec fn cell_uniform(px: Seq<Seq<u32>>, grid: FlexGrid, row: int, col: int) -> bool {
    let cs = grid.cellsize as int;
    let r0 = grid.rows_view()[row] as int;
    let c0 = grid.cols_view()[col] as int;
    rect_max(px, r0, c0, cs, cs) < rect_min(px, r0, c0, cs, cs) + 40
}

/// Whether the cell compares close enough to the wall reference cell
/// (the top-left cell of the grid) to be a wall.
pub open spec fn cell_like_wall(px: Seq<Seq<u32>>, grid: FlexGrid, row: int, col: int) -> bool {
    let cs = grid.cellsize as int;
    let r0 = grid.rows_view()[row] as int;
    let c0 = grid.cols_view()[col] as int;
    let wr = grid.rows_view()[0] as int;
    let wc = grid.cols_view()[0] as int;
    rect_sad(px, wr, wc, r0, c0, cs, cs) < 25 * cs * cs
}

/// The wall/passage classification of one maze cell: near-uniform cells
/// pass, cells like the wall reference are walls, the rest pass.
#[verifier::opaque]
pub open spec fn base_cell_spec(px: Seq<Seq<u32>>, grid: FlexGrid, row: int, col: int) -> Cell {
    if cell_uniform(px, grid, row, col) {
        Cell::Pass
    } else if cell_like_wall(px, grid, row, col) {
        Cell::Wall
    } else {
        Cell::Pass
    }
}

/// Whether icon recognition is attempted on the cell: only cells that
/// are neither near-uniform nor wall-like carry an icon.
pub open spec fn cell_iconish(px: Seq<Seq<u32>>, grid: FlexGrid, row: int, col: int) -> bool {
    !cell_uniform(px, grid, row, col) && !cell_like_wall(px, grid, row, col)
}

/// The best catalogue match for the cell's descriptor pair.
#[verifier::opaque]
pub open spec fn cell_match_spec(
    feats: Seq<(FeatureVector, Mark)>,
    px: Seq<Seq<u32>>,
    grid: FlexGrid,
    row: int,
    col: int,
) -> (Mark, int) {
    let cs = grid.cellsize as int;
    let r0 = grid.rows_view()[row] as int;
    let c0 = grid.cols_view()[col] as int;
    closest_upto(
        feats,
        cell_sig(px, r0, c0, cs, 0),
        cell_sig(px, r0, c0, cs, 1),
        feats.len() as int,
    )
}

/// The icon mark recorded for a cell before the entrance and treasury
/// candidates are resolved: matches at or under the detection threshold
/// count, wall matches are ignored in icon context, and entrance and
/// treasury matches are only candidates.
#[verifier::opaque]
pub open spec fn base_mark_spec(
    feats: Seq<(FeatureVector, Mark)>,
    px: Seq<Seq<u32>>,
    grid: FlexGrid,
    row: int,
    col: int,
) -> Mark {
    if cell_iconish(px, grid, row, col) {
        let m = cell_match_spec(feats, px, grid, row, col);
        if m.1 <= 30 && m.0 != Mark::Entrance && m.0 != Mark::Treasury && m.0 != Mark::Wall {
            m.0
        } else {
            Mark::Empty
        }
    } else {
        Mark::Empty
    }
}

/// The best candidate cell for `target` (entrance or treasury) among the
/// first `n` cells, row-major: the earliest cell of smallest distance at
/// or under the detection threshold, as `(cell index, distance)`, with
/// `(0, 1000)` when none matched.
#[verifier::opaque]
pub open spec fn cand_upto(
    feats: Seq<(FeatureVector, Mark)>,
    px: Seq<Seq<u32>>,
    grid: FlexGrid,
    target: Mark,
    n: int,
) -> (int, int)
    decreases n,
{
    if n <= 0 {
        (0, 1000)
    } else {
        let prev = cand_upto(feats, px, grid, target, n - 1);
        let nc = flex_rows_spec(grid.cols_view());
        let gi = n - 1;
        let row = gi / nc;
        let col = gi % nc;
        let m = cell_match_spec(feats, px, grid, row, col);
        if cell_iconish(px, grid, row, col) && m.1 <= 30 && m.0 == target && prev.1 > m.1 {
            (gi, m.1)
        } else {
            prev
        }
    }
}

/// The wall/passage classification of the whole maze, row-major.
pub open spec fn maze_cells_spec(px: Seq<Seq<u32>>, grid: FlexGrid) -> Seq<Cell> {
    let nr = flex_rows_spec(grid.rows_view());
    let nc = flex_rows_spec(grid.cols_view());
    Seq::new((nr * nc) as nat, |gi: int| base_cell_spec(px, grid, gi / nc, gi % nc))
}

/// The icon marks of the whole maze: the per-cell marks, with the best
/// entrance candidate and the best treasury candidate written over them
/// (a candidate at cell zero, the wall reference, is ignored).
pub open spec fn maze_marks_spec(
    feats: Seq<(FeatureVector, Mark)>,
    px: Seq<Seq<u32>>,
    grid: FlexGrid,
) -> Seq<Mark> {
    let nr = flex_rows_spec(grid.rows_view());
    let nc = flex_rows_spec(grid.cols_view());
    let n = nr * nc;
    let base = Seq::new(n as nat, |gi: int| base_mark_spec(feats, px, grid, gi / nc, gi % nc));
    let e = cand_upto(feats, px, grid, Mark::Entrance, n);
    let t = cand_upto(feats, px, grid, Mark::Treasury, n);
    let m1 = if e.0 > 0 {
        base.update(e.0, Mark::Entrance)
    } else {
        base
    };
    if t.0 > 0 {
        m1.update(t.0, Mark::Treasury)
    } else {
        m1
    }
}

impl ImageProcessor {
    /// Classify one maze cell and, when icon recognition applies, report
    /// the best catalogue match.
    #[verifier::loop_isolation(false)]
    #[verifier::rlimit(100)]
    fn cell_entry(&self, grid: &FlexGrid, row: usize, col: usize, wr: usize, wc: usize) -> (r: (
        Cell,
        Mark,
        Mark,
        i32,
    ))
        requires
            self.wf(),
            1 <= grid.cellsize <= 4096,
            row < flex_rows_spec(grid.rows_view()),
            col < flex_rows_spec(grid.cols_view()),
            grid.rows_view().len() >= 1,
            grid.cols_view().len() >= 1,
            wr == grid.rows_view()[0],
            wc == grid.cols_view()[0],
            forall|i: int|
                0 <= i < grid.rows_view().len() ==> grid.rows_view()[i] + grid.cellsize
                    <= self.height_spec(),
            forall|i: int|
                0 <= i < grid.cols_view().len() ==> grid.cols_view()[i] + grid.cellsize
                    <= self.width_spec(),
        ensures
            r.0 == base_cell_spec(self.px_view(), *grid, row as int, col as int),
            r.1 == base_mark_spec(self.features_view(), self.px_view(), *grid, row as int, col as int),
            cell_iconish(self.px_view(), *grid, row as int, col as int) ==> {
                let m = cell_match_spec(
                    self.features_view(),
                    self.px_view(),
                    *grid,
                    row as int,
                    col as int,
                );
                r.2 == m.0 && r.3 as int == m.1
            },
            !cell_iconish(self.px_view(), *grid, row as int, col as int) ==> r.3 == i32::MAX,
    {
        proof {
            reveal(cell_sig);
            reveal(cell_match_spec);
            reveal(base_cell_spec);
            reveal(base_mark_spec);
        }
        let ghost px = self.px_view();
        let ghost feats = self.features_view();
        let cs = grid.cellsize;
        let r0 = grid.row(row);
        let c0 = grid.col(col);
        let (cmin, cmax) = self.cell_extremes(r0, c0, cs);
        let diff = self.cell_sad(wr, wc, r0, c0, cs);
        proof {
            assert(25 * (cs as int) * (cs as int) <= 25 * 4096 * 4096) by (nonlinear_arith)
                requires
                    1 <= cs <= 4096,
            ;
        }
        let threshold_sad: u64 = 25 * (cs as u64) * (cs as u64);
        if (cmax as u64) < cmin as u64 + 40 {
            (Cell::Pass, Mark::Empty, Mark::Empty, i32::MAX)
        } else if diff < threshold_sad {
            (Cell::Wall, Mark::Empty, Mark::Empty, i32::MAX)
        } else {
            let bytes = self.cell_bytes(r0, c0, cs);
            let eight = resize_gray(&bytes, cs, cs, 8, 8);
            let fv = FeatureVector::from_image(8, 8, &eight);
            proof {
                assert(fv.0[0].b@ =~= cell_sig(px, r0 as int, c0 as int, cs as int, 0));
                assert(fv.0[1].b@ =~= cell_sig(px, r0 as int, c0 as int, cs as int, 1));
            }
            let (detected_mark, similarity) = self.get_closest_feature(&fv);
            let pushed: Mark = if similarity <= DETECT_THRESHOLD && detected_mark != Mark::Entrance
                && detected_mark != Mark::Treasury && detected_mark != Mark::Wall {
                detected_mark
            } else {
                Mark::Empty
            };
            (Cell::Pass, pushed, detected_mark, similarity)
        }
    }

    /// Detect the actual cells of the maze under the given grid: each
    /// cell is classified wall or passage against the top-left wall
    /// reference cell, icons are recognized on the remaining cells, and
    /// the single best entrance and treasury candidates keep their
    /// marks. A grid without a cell size yields an empty maze.
    #[verifier::loop_isolation(false)]
    #[verifier::rlimit(100)]
    pub fn detect_maze(&self, grid: &FlexGrid) -> (r: crate::maze::Maze)
        requires
            self.wf(),
            grid.cellsize == 0 || {
                &&& 1 <= grid.cellsize <= 4096
                &&& 1 <= grid.rows_view().len() <= 21
                &&& 1 <= grid.cols_view().len() <= 21
                &&& forall|i: int|
                    0 <= i < grid.rows_view().len() ==> grid.rows_view()[i] + grid.cellsize
                        <= self.height_spec()
                &&& forall|i: int|
                    0 <= i < grid.cols_view().len() ==> grid.cols_view()[i] + grid.cellsize
                        <= self.width_spec()
            },
        ensures
            r.grid_view().cellsize == grid.cellsize,
            r.grid_view().rows_view() == grid.rows_view(),
            r.grid_view().cols_view() == grid.cols_view(),
            grid.cellsize == 0 ==> r.cells_view().len() == 0 && r.marks_view().len() == 0,
            grid.cellsize >= 1 ==> r.cells_view() == maze_cells_spec(self.px_view(), *grid),
            grid.cellsize >= 1 ==> r.marks_view() == maze_marks_spec(
                self.features_view(),
                self.px_view(),
                *grid,
            ),
            grid.cellsize >= 1 ==> r.wf(),
    {
        let grid_copy = FlexGrid {
            cellsize: grid.cellsize,
            rows: copy_usize_vec(&grid.rows),
            cols: copy_usize_vec(&grid.cols),
        };
        if grid.cellsize == 0 {
            return crate::maze::Maze::from_parts(grid_copy, Vec::new(), Vec::new());
        }
        let cs = grid.cellsize;
        let nr = grid.num_rows();
        let nc = grid.num_cols();
        let wr = grid.row(0);
        let wc = grid.col(0);
        let mut cells: Vec<Cell> = Vec::new();
        let mut marks: Vec<Mark> = Vec::new();
        let mut entry_cand: (usize, i32) = (0, 1000);
        let mut treasury_cand: (usize, i32) = (0, 1000);
        proof {
            reveal(cand_upto);
        }
        let ghost feats = self.features_view();
        let ghost px = self.px_view();
        let mut row: usize = 0;
        while row < nr
            invariant
                row <= nr,
                cells@.len() == row * nc,
                marks@.len() == row * nc,
                forall|gi: int|
                    0 <= gi < row * nc ==> cells@[gi] == base_cell_spec(
                        px,
                        *grid,
                        gi / nc as int,
                        gi % nc as int,
                    ),
                forall|gi: int|
                    0 <= gi < row * nc ==> marks@[gi] == base_mark_spec(
                        feats,
                        px,
                        *grid,
                        gi / nc as int,
                        gi % nc as int,
                    ),
                (entry_cand.0 as int, entry_cand.1 as int) == cand_upto(
                    feats,
                    px,
                    *grid,
                    Mark::Entrance,
                    row * nc as int,
                ),
                (treasury_cand.0 as int, treasury_cand.1 as int) == cand_upto(
                    feats,
                    px,
                    *grid,
                    Mark::Treasury,
                    row * nc as int,
                ),
                entry_cand.0 <= row * nc,
                treasury_cand.0 <= row * nc,
            decreases nr - row,
        {
            let mut col: usize = 0;
            while col < nc
                invariant
                    col <= nc,
                    row < nr,
                    cells@.len() == row * nc + col,
                    marks@.len() == row * nc + col,
                    forall|gi: int|
                        0 <= gi < row * nc + col ==> cells@[gi] == base_cell_spec(
                            px,
                            *grid,
                            gi / nc as int,
                            gi % nc as int,
                        ),
                    forall|gi: int|
                        0 <= gi < row * nc + col ==> marks@[gi] == base_mark_spec(
                            feats,
                            px,
                            *grid,
                            gi / nc as int,
                            gi % nc as int,
                        ),
                    (entry_cand.0 as int, entry_cand.1 as int) == cand_upto(
                        feats,
                        px,
                        *grid,
                        Mark::Entrance,
                        row * nc as int + col as int,
                    ),
                    (treasury_cand.0 as int, treasury_cand.1 as int) == cand_upto(
                        feats,
                        px,
                        *grid,
                        Mark::Treasury,
                        row * nc as int + col as int,
                    ),
                    entry_cand.0 <= row * nc + col,
                    treasury_cand.0 <= row * nc + col,
                decreases nc - col,
            {
                proof {
                    assert(row * nc + col < nr * nc && nr * nc <= 400 && (row * nc + col) / (
                    nc as int) == row && (row * nc + col) % (nc as int) == col)
                        by (nonlinear_arith)
                        requires
                            0 <= row < nr,
                            0 <= col < nc,
                            1 <= nc <= 20,
                            nr <= 20,
                    ;
                }
                let gi = row * nc + col;
                proof {
                    reveal(cand_upto);
                }
                let entry = self.cell_entry(grid, row, col, wr, wc);
                cells.push(entry.0);
                marks.push(entry.1);
                let similarity = entry.3;
                if similarity <= DETECT_THRESHOLD {
                    if entry.2 == Mark::Entrance {
                        if entry_cand.1 > similarity {
                            entry_cand = (gi, similarity);
                        }
                    } else if entry.2 == Mark::Treasury {
                        if treasury_cand.1 > similarity {
                            treasury_cand = (gi, similarity);
                        }
                    }
                }
                col = col + 1;
            }
            proof {
                assert(row * nc + nc == (row + 1) * nc) by (nonlinear_arith);
            }
            row = row + 1;
        }
        proof {
            assert(cells@ =~= maze_cells_spec(px, *grid));
            lemma_cand_upto_bounds(feats, px, *grid, Mark::Entrance, nr as int * nc as int);
            lemma_cand_upto_bounds(feats, px, *grid, Mark::Treasury, nr as int * nc as int);
        }
        if entry_cand.0 > 0 {
            marks.set(entry_cand.0, Mark::Entrance);
        }
        if treasury_cand.0 > 0 {
            marks.set(treasury_cand.0, Mark::Treasury);
        }
        proof {
            assert(marks@ =~= maze_marks_spec(feats, px, *grid));
        }
        crate::maze::Maze::from_parts(grid_copy, cells, marks)
    }
}

/// A candidate reported by the scan is always the index of a scanned
/// cell (or the initial zero).
proof fn lemma_cand_upto_bounds(
    feats: Seq<(FeatureVector, Mark)>,
    px: Seq<Seq<u32>>,
    grid: FlexGrid,
    target: Mark,
    n: int,
)
    ensures
        0 <= cand_upto(feats, px, grid, target, n).0,
        cand_upto(feats, px, grid, target, n).0 == 0 || cand_upto(feats, px, grid, target, n).0
            < n,
    decreases n,
{
    reveal(cand_upto);
    if n > 0 {
        lemma_cand_upto_bounds(feats, px, grid, target, n - 1);
    }
}

/// Whether projection position `ix` is a "dip": the value `g` ahead is
/// below both neighbors at distance `g`, and both drops exceed the spike
/// threshold.
pub open spec fn is_spike(cols: Seq<u32>, g: int, ix: int) -> bool {
    &&& cols[ix] > cols[ix + g]
    &&& cols[ix + g] < cols[ix + 2 * g]
    &&& mean_diff(cols[ix] as int, cols[ix + g] as int) > 40
    &&& mean_diff(cols[ix + g] as int, cols[ix + 2 * g] as int) > 40
}

/// The dip positions among the first `n` window starts, in order.
pub open spec fn spikes_upto(cols: Seq<u32>, g: int, n: int) -> Seq<int>
    decreases n,
{
    if n <= 0 {
        Seq::empty()
    } else if is_spike(cols, g, n - 1) {
        spikes_upto(cols, g, n - 1).push(n - 1)
    } else {
        spikes_upto(cols, g, n - 1)
    }
}

/// The chain of dips greedily matched at stride `period` from the dip at
/// position `start`, after considering dips before `i`: the number
/// matched, the last matched dip, and the stored offsets (each dip plus
/// twice the gutter width), capped at twenty entries.
pub open spec fn chain_upto(spikes: Seq<int>, g: int, period: int, start: int, i: int) -> (
    int,
    int,
    Seq<int>,
)
    decreases i - start,
{
    if i <= start + 1 {
        (1, spikes[start], seq![spikes[start] + 2 * g])
    } else {
        let prev = chain_upto(spikes, g, period, start, i - 1);
        let ix = spikes[i - 1];
        if mean_diff(ix, prev.1 + period) <= 2 && prev.0 < 20 {
            (prev.0 + 1, ix, prev.2.push(ix + 2 * g))
        } else {
            prev
        }
    }
}

/// The longest chain after trying the first `n` starting dips at one
/// period: a longer chain replaces the accumulator.
pub open spec fn best_start_upto(
    spikes: Seq<int>,
    g: int,
    period: int,
    n: int,
    acc: (int, Seq<int>),
) -> (int, Seq<int>)
    decreases n,
{
    if n <= 0 {
        acc
    } else {
        let prev = best_start_upto(spikes, g, period, n - 1, acc);
        let ch = chain_upto(spikes, g, period, n - 1, spikes.len() as int);
        if ch.0 > prev.1.len() {
            (period, ch.2)
        } else {
            prev
        }
    }
}

/// The longest chain after trying the periods `lo` up to `lo + n`.
pub open spec fn best_period_upto(
    spikes: Seq<int>,
    g: int,
    lo: int,
    n: int,
) -> (int, Seq<int>)
    decreases n,
{
    if n <= 0 {
        (0, Seq::empty())
    } else {
        best_start_upto(
            spikes,
            g,
            lo + n - 1,
            spikes.len() - 2,
            best_period_upto(spikes, g, lo, n - 1),
        )
    }
}

/// What the uneven-grid search returns on a projection: the winning
/// period less the gutter width, and the stored dip offsets of the
/// longest chain; empty when the projection is too short or has fewer
/// than three dips.
pub open spec fn uneven_spec(cols: Seq<u32>, known: Option<usize>, g: int) -> (int, Seq<int>) {
    if cols.len() < 64 {
        (0, Seq::empty())
    } else {
        let nwin = if cols.len() >= 2 * g {
            cols.len() - 2 * g
        } else {
            0
        };
        let spikes = spikes_upto(cols, g, nwin);
        if spikes.len() < 3 {
            (0, Seq::empty())
        } else {
            let lo = match known {
                Option::None => 12int,
                Option::Some(cs) => cs as int - 1,
            };
            let hi = match known {
                Option::None => 60int,
                Option::Some(cs) => cs as int + 4,
            };
            let b = best_period_upto(spikes, g, lo, hi - lo);
            let sat = if b.0 >= g {
                b.0 - g
            } else {
                0
            };
            (sat, b.1)
        }
    }
}

/// Find periodic lines of possibly uneven spacing in a projection
/// vector: collect the dips of the projection, then greedily chain dips
/// lying within two pixels of the previous dip plus the candidate
/// period, and keep the longest chain over all periods and starting
/// dips.
#[verifier::loop_isolation(false)]
#[verifier::rlimit(100)]
pub fn find_uneven_grid_period(
    cols: &Vec<u32>,
    known_cell_size: Option<usize>,
    gutter_width: usize,
) -> (r: (usize, Vec<usize>))
    requires
        cols@.len() <= 100_000,
        1 <= gutter_width <= 3,
        match known_cell_size {
            Option::Some(cs) => 1 <= cs <= 100,
            Option::None => true,
        },
    ensures
        ({
            let spec = uneven_spec(cols@, known_cell_size, gutter_width as int);
            &&& r.0 as int == spec.0
            &&& r.1@.len() == spec.1.len()
            &&& forall|k: int| 0 <= k < r.1@.len() ==> r.1@[k] as int == spec.1[k]
        }),
{
    let g = gutter_width;
    let len = cols.len();
    if len < 64 {
        return (0, Vec::new());
    }
    let nwin = if len >= 2 * g {
        len - 2 * g
    } else {
        0
    };
    let ghost sp = spikes_upto(cols@, g as int, nwin as int);
    let mut spikes: Vec<usize> = Vec::new();
    let mut ix: usize = 0;
    while ix < nwin
        invariant
            ix <= nwin,
            nwin + 2 * g == len,
            spikes@.len() == spikes_upto(cols@, g as int, ix as int).len(),
            spikes@.len() <= ix,
            forall|k: int|
                0 <= k < spikes@.len() ==> spikes@[k] as int == spikes_upto(
                    cols@,
                    g as int,
                    ix as int,
                )[k],
            forall|k: int| 0 <= k < spikes@.len() ==> spikes@[k] < len,
        decreases nwin - ix,
    {
        let a = cols[ix];
        let b = cols[ix + g];
        let c = cols[ix + 2 * g];
        if a > b && b < c && a - b > 40 && c - b > 40 {
            spikes.push(ix);
        }
        ix = ix + 1;
    }
    proof {
        assert(spikes@.len() == sp.len());
    }
    if spikes.len() < 3 {
        return (0, Vec::new());
    }
    let lo: usize = match known_cell_size {
        Option::None => 12,
        Option::Some(cs) => cs - 1,
    };
    let hi: usize = match known_cell_size {
        Option::None => 60,
        Option::Some(cs) => cs + 4,
    };
    let mut best_period: usize = 0;
    let mut best_chain: Vec<usize> = Vec::new();
    let mut p: usize = lo;
    while p < hi
        invariant
            lo <= p <= hi,
            spikes@.len() == sp.len(),
            3 <= sp.len() <= 100_000,
            forall|k: int| 0 <= k < spikes@.len() ==> spikes@[k] as int == sp[k],
            forall|k: int| 0 <= k < spikes@.len() ==> spikes@[k] < len,
            hi <= 104,
            ({
                let b = best_period_upto(sp, g as int, lo as int, p as int - lo as int);
                &&& best_period as int == b.0
                &&& best_chain@.len() == b.1.len()
                &&& forall|k: int| 0 <= k < best_chain@.len() ==> best_chain@[k] as int == b.1[k]
            }),
        decreases hi - p,
    {
        let ghost entry = best_period_upto(sp, g as int, lo as int, p as int - lo as int);
        let mut start: usize = 0;
        while start < spikes.len() - 2
            invariant
                start <= spikes@.len() - 2,
                p < hi,
                spikes@.len() == sp.len(),
                3 <= sp.len() <= 100_000,
                forall|k: int| 0 <= k < spikes@.len() ==> spikes@[k] as int == sp[k],
                forall|k: int| 0 <= k < spikes@.len() ==> spikes@[k] < len,
                hi <= 104,
                ({
                    let b = best_start_upto(sp, g as int, p as int, start as int, entry);
                    &&& best_period as int == b.0
                    &&& best_chain@.len() == b.1.len()
                    &&& forall|k: int|
                        0 <= k < best_chain@.len() ==> best_chain@[k] as int == b.1[k]
                }),
            decreases spikes@.len() - 2 - start,
        {
            let mut count: usize = 1;
            let mut last: usize = spikes[start];
            let mut store: Vec<usize> = Vec::new();
            store.push(spikes[start] + 2 * g);
            let mut i: usize = start + 1;
            while i < spikes.len()
                invariant
                    start + 1 <= i <= spikes@.len(),
                    start < spikes@.len() - 2,
                    p < hi,
                    hi <= 104,
                    spikes@.len() == sp.len(),
                    3 <= sp.len() <= 100_000,
                    forall|k: int| 0 <= k < spikes@.len() ==> spikes@[k] as int == sp[k],
                    forall|k: int| 0 <= k < spikes@.len() ==> spikes@[k] < len,
                    len <= 100_000,
                    last < len,
                    ({
                        let ch = chain_upto(sp, g as int, p as int, start as int, i as int);
                        &&& count as int == ch.0
                        &&& last as int == ch.1
                        &&& store@.len() == ch.2.len()
                        &&& forall|k: int| 0 <= k < store@.len() ==> store@[k] as int == ch.2[k]
                        &&& count == store@.len()
                    }),
                decreases spikes@.len() - i,
            {
                let ixv = spikes[i];
                let target = last + p;
                let d = if ixv >= target {
                    ixv - target
                } else {
                    target - ixv
                };
                if d <= 2 && count < 20 {
                    store.push(ixv + 2 * g);
                    count = count + 1;
                    last = ixv;
                }
                i = i + 1;
            }
            if count > best_chain.len() {
                best_period = p;
                best_chain = store;
            }
            start = start + 1;
        }
        p = p + 1;
    }
    let sat = if best_period >= g {
        best_period - g
    } else {
        0
    };
    (sat, best_chain)
}

/// Sum of a square patch, `n` rows considered.
pub open spec fn rect_total(px: Seq<Seq<u32>>, r0: int, c0: int, s: int, n: int) -> int
    decreases n,
{
    if n <= 0 {
        0
    } else {
        rect_total(px, r0, c0, s, n - 1) + range_sum(px[r0 + n - 1], c0, s)
    }
}

/// Whether a horizontal run of a patch row lies fully below the mean.
pub open spec fn seg_below(px: Seq<Seq<u32>>, r: int, clo: int, chi: int, avg: int) -> bool {
    forall|c: int| clo <= c < chi ==> (#[trigger] px[r][c]) < avg
}

/// Whether a vertical run of a patch column lies fully below the mean.
pub open spec fn colseg_below(px: Seq<Seq<u32>>, c: int, rlo: int, rhi: int, avg: int) -> bool {
    forall|r: int| rlo <= r < rhi ==> (#[trigger] px[r][c]) < avg
}

/// Whether patch row `r` forms a left (or whole) horizontal dark arm.
pub open spec fn arm_left(px: Seq<Seq<u32>>, r0: int, c0: int, s: int, avg: int, r: int) -> bool {
    seg_below(px, r0 + r, c0, c0 + s / 2 + 1, avg)
}

/// Whether patch row `r` forms a right horizontal dark arm.
pub open spec fn arm_right(px: Seq<Seq<u32>>, r0: int, c0: int, s: int, avg: int, r: int) -> bool {
    seg_below(px, r0 + r, c0 + s / 2, c0 + s, avg)
}

/// Whether patch column `c` forms a top vertical dark arm.
pub open spec fn arm_top(px: Seq<Seq<u32>>, r0: int, c0: int, s: int, avg: int, c: int) -> bool {
    colseg_below(px, c0 + c, r0, r0 + s / 2 + 1, avg)
}

/// Whether patch column `c` forms a bottom vertical dark arm.
pub open spec fn arm_bottom(px: Seq<Seq<u32>>, r0: int, c0: int, s: int, avg: int, c: int) -> bool {
    colseg_below(px, c0 + c, r0 + s / 2, r0 + s, avg)
}

/// Whether the square patch of side `s` at `(r0, c0)` shows a "+"
/// intersection: all four corners brighter than the patch mean, at least
/// one horizontal arm and one vertical arm fully darker than it.
pub open spec fn isect_spec(px: Seq<Seq<u32>>, r0: int, c0: int, s: int) -> bool {
    let avg = rect_total(px, r0, c0, s, s) / (s * s);
    &&& px[r0][c0] > avg
    &&& px[r0][c0 + s - 1] > avg
    &&& px[r0 + s - 1][c0] > avg
    &&& px[r0 + s - 1][c0 + s - 1] > avg
    &&& ((exists|r: int| 1 <= r < s - 1 && #[trigger] arm_left(px, r0, c0, s, avg, r)) || (
    exists|r: int| 1 <= r < s - 1 && #[trigger] arm_right(px, r0, c0, s, avg, r)))
    &&& ((exists|c: int| 1 <= c < s - 1 && #[trigger] arm_top(px, r0, c0, s, avg, c)) || (
    exists|c: int| 1 <= c < s - 1 && #[trigger] arm_bottom(px, r0, c0, s, avg, c)))
}

impl ImageProcessor {
    /// Whether a horizontal run lies fully below the mean.
    #[verifier::loop_isolation(false)]
    fn seg_all_below(&self, r: usize, clo: usize, chi: usize, avg: u32) -> (b: bool)
        requires
            self.wf(),
            r < self.height_spec(),
            clo <= chi <= self.width_spec(),
        ensures
            b == seg_below(self.px_view(), r as int, clo as int, chi as int, avg as int),
    {
        let mut c = clo;
        let mut ok = true;
        while c < chi
            invariant
                clo <= c <= chi,
                ok == seg_below(self.px_view(), r as int, clo as int, c as int, avg as int),
            decreases chi - c,
        {
            if mat_get(&self.pixels, r, c) >= avg {
                ok = false;
            }
            c = c + 1;
        }
        ok
    }

    /// Whether a vertical run lies fully below the mean.
    #[verifier::loop_isolation(false)]
    fn colseg_all_below(&self, c: usize, rlo: usize, rhi: usize, avg: u32) -> (b: bool)
        requires
            self.wf(),
            c < self.width_spec(),
            rlo <= rhi <= self.height_spec(),
        ensures
            b == colseg_below(self.px_view(), c as int, rlo as int, rhi as int, avg as int),
    {
        let mut r = rlo;
        let mut ok = true;
        while r < rhi
            invariant
                rlo <= r <= rhi,
                ok == colseg_below(self.px_view(), c as int, rlo as int, r as int, avg as int),
            decreases rhi - r,
        {
            if mat_get(&self.pixels, r, c) >= avg {
                ok = false;
            }
            r = r + 1;
        }
        ok
    }

    /// Determine whether the square patch shows a "+" grid intersection.
    #[verifier::loop_isolation(false)]
    #[verifier::rlimit(100)]
    fn is_intersection(&self, r0: usize, c0: usize, s: usize) -> (b: bool)
        requires
            self.wf(),
            2 <= s <= 100,
            r0 + s <= self.height_spec(),
            c0 + s <= self.width_spec(),
        ensures
            b == isect_spec(self.px_view(), r0 as int, c0 as int, s as int),
    {
        let mut total: u64 = 0;
        let mut i: usize = 0;
        while i < s
            invariant
                i <= s,
                total as int == rect_total(self.px_view(), r0 as int, c0 as int, s as int, i as int),
                total <= 500_000 * (i * s),
            decreases s - i,
        {
            let mut row_total: u64 = 0;
            let mut j: usize = 0;
            while j < s
                invariant
                    i < s,
                    j <= s,
                    row_total as int == range_sum(self.px_view()[r0 + i], c0 as int, j as int),
                    row_total <= 500_000 * j,
                decreases s - j,
            {
                proof {
                    assert(row_total + self.px_view()[r0 + i][c0 + j] <= 500_000 * (j + 1))
                        by (nonlinear_arith)
                        requires
                            row_total <= 500_000 * j,
                            self.px_view()[r0 + i][c0 + j] <= 500_000,
                    ;
                    assert(500_000 * (j + 1) <= 500_000 * 100) by (nonlinear_arith)
                        requires
                            j + 1 <= 100,
                    ;
                }
                row_total = row_total + mat_get(&self.pixels, r0 + i, c0 + j) as u64;
                j = j + 1;
            }
            proof {
                assert(total + row_total <= 500_000 * ((i + 1) * s)) by (nonlinear_arith)
                    requires
                        total <= 500_000 * (i as int * s as int),
                        row_total <= 500_000 * s,
                ;
                assert(500_000 * ((i + 1) * s) <= 500_000 * (100 * 100)) by (nonlinear_arith)
                    requires
                        i + 1 <= 100,
                        s <= 100,
                ;
            }
            total = total + row_total;
            i = i + 1;
        }
        proof {
            assert(s * s >= 1) by (nonlinear_arith)
                requires
                    s >= 1,
            ;
            assert((total as int) / (s as int * s as int) <= total) by (nonlinear_arith)
                requires
                    s as int * s as int >= 1,
                    total >= 0,
            ;
            assert(s * s <= 10_000 && 500_000 * (i as int * s as int) <= 500_000 * 10_000)
                by (nonlinear_arith)
                requires
                    1 <= s <= 100,
                    i == s,
            ;
            assert((total as int) / (s as int * s as int) <= 500_000) by (nonlinear_arith)
                requires
                    total as int <= 500_000 * (s as int * s as int),
                    s as int * s as int >= 1,
            ;
        }
        let avg: u32 = (total / ((s * s) as u64)) as u32;
        let corners = mat_get(&self.pixels, r0, c0) > avg && mat_get(&self.pixels, r0, c0 + s - 1)
            > avg && mat_get(&self.pixels, r0 + s - 1, c0) > avg && mat_get(
            &self.pixels,
            r0 + s - 1,
            c0 + s - 1,
        ) > avg;
        if !corners {
            return false;
        }
        let mut left = false;
        let mut right = false;
        let mut row: usize = 1;
        while row < s - 1
            invariant
                1 <= row <= s - 1,
                left == (exists|r: int|
                    1 <= r < row && #[trigger] arm_left(
                        self.px_view(),
                        r0 as int,
                        c0 as int,
                        s as int,
                        avg as int,
                        r,
                    )),
                right == (exists|r: int|
                    1 <= r < row && #[trigger] arm_right(
                        self.px_view(),
                        r0 as int,
                        c0 as int,
                        s as int,
                        avg as int,
                        r,
                    )),
            decreases s - 1 - row,
        {
            let sl = self.seg_all_below(r0 + row, c0, c0 + s / 2 + 1, avg);
            let sr = self.seg_all_below(r0 + row, c0 + s / 2, c0 + s, avg);
            proof {
                assert(arm_left(self.px_view(), r0 as int, c0 as int, s as int, avg as int, row as int)
                    == sl);
                assert(arm_right(self.px_view(), r0 as int, c0 as int, s as int, avg as int, row as int)
                    == sr);
            }
            if sl {
                left = true;
            }
            if sr {
                right = true;
            }
            row = row + 1;
        }
        let mut top = false;
        let mut bottom = false;
        let mut col: usize = 1;
        while col < s - 1
            invariant
                1 <= col <= s - 1,
                top == (exists|c: int|
                    1 <= c < col && #[trigger] arm_top(
                        self.px_view(),
                        r0 as int,
                        c0 as int,
                        s as int,
                        avg as int,
                        c,
                    )),
                bottom == (exists|c: int|
                    1 <= c < col && #[trigger] arm_bottom(
                        self.px_view(),
                        r0 as int,
                        c0 as int,
                        s as int,
                        avg as int,
                        c,
                    )),
            decreases s - 1 - col,
        {
            let st = self.colseg_all_below(c0 + col, r0, r0 + s / 2 + 1, avg);
            let sb = self.colseg_all_below(c0 + col, r0 + s / 2, r0 + s, avg);
            proof {
                assert(arm_top(self.px_view(), r0 as int, c0 as int, s as int, avg as int, col as int)
                    == st);
                assert(arm_bottom(self.px_view(), r0 as int, c0 as int, s as int, avg as int, col as int)
                    == sb);
            }
            if st {
                top = true;
            }
            if sb {
                bottom = true;
            }
            col = col + 1;
        }
        (left || right) && (top || bottom)
    }
}

/// A dip list holds at most one entry per window start, all inside the
/// projection.
proof fn lemma_spikes_bounds(cols: Seq<u32>, g: int, n: int)
    requires
        n >= 0,
    ensures
        spikes_upto(cols, g, n).len() <= n,
        forall|k: int|
            0 <= k < spikes_upto(cols, g, n).len() ==> 0 <= #[trigger] spikes_upto(cols, g, n)[k]
                < n,
    decreases n,
{
    if n > 0 {
        lemma_spikes_bounds(cols, g, n - 1);
        assert forall|k: int| 0 <= k < spikes_upto(cols, g, n).len() implies 0
            <= #[trigger] spikes_upto(cols, g, n)[k] < n by {
            if k < spikes_upto(cols, g, n - 1).len() {
                assert(spikes_upto(cols, g, n)[k] == spikes_upto(cols, g, n - 1)[k]);
            }
        }
    }
}

/// A chain stores as many offsets as it counts, at most twenty, each
/// inside the projection extended by the stored shift.
proof fn lemma_chain_bounds(spikes: Seq<int>, g: int, p: int, start: int, i: int, bound: int)
    requires
        0 <= start < spikes.len(),
        start + 1 <= i <= spikes.len(),
        g >= 0,
        forall|k: int| 0 <= k < spikes.len() ==> 0 <= #[trigger] spikes[k] < bound,
    ensures
        ({
            let ch = chain_upto(spikes, g, p, start, i);
            &&& ch.0 == ch.2.len()
            &&& 1 <= ch.0 <= 20
            &&& forall|k: int| 0 <= k < ch.2.len() ==> 0 <= #[trigger] ch.2[k] < bound + 2 * g
        }),
    decreases i - start,
{
    if i > start + 1 {
        lemma_chain_bounds(spikes, g, p, start, i - 1, bound);
    }
}

/// Any winner of the start scan stays within the period range and the
/// chain bounds.
proof fn lemma_best_start_bounds(
    spikes: Seq<int>,
    g: int,
    p: int,
    n: int,
    acc: (int, Seq<int>),
    plo: int,
    phi: int,
    bound: int,
)
    requires
        0 <= n <= spikes.len() - 2,
        spikes.len() >= 3,
        g >= 0,
        plo <= p < phi,
        forall|k: int| 0 <= k < spikes.len() ==> 0 <= #[trigger] spikes[k] < bound,
        acc.0 == 0 || plo <= acc.0 < phi,
        acc.1.len() <= 20,
        forall|k: int| 0 <= k < acc.1.len() ==> 0 <= #[trigger] acc.1[k] < bound + 2 * g,
    ensures
        ({
            let b = best_start_upto(spikes, g, p, n, acc);
            &&& (b.0 == 0 || plo <= b.0 < phi)
            &&& b.1.len() <= 20
            &&& forall|k: int| 0 <= k < b.1.len() ==> 0 <= #[trigger] b.1[k] < bound + 2 * g
        }),
    decreases n,
{
    if n > 0 {
        lemma_best_start_bounds(spikes, g, p, n - 1, acc, plo, phi, bound);
        lemma_chain_bounds(spikes, g, p, n - 1, spikes.len() as int, bound);
    }
}

/// Any winner of the period scan stays within the period range and the
/// chain bounds.
proof fn lemma_best_period_bounds(spikes: Seq<int>, g: int, lo: int, n: int, bound: int)
    requires
        spikes.len() >= 3,
        g >= 0,
        n >= 0,
        lo >= 0,
        forall|k: int| 0 <= k < spikes.len() ==> 0 <= #[trigger] spikes[k] < bound,
    ensures
        ({
            let b = best_period_upto(spikes, g, lo, n);
            &&& (b.0 == 0 || lo <= b.0 < lo + n)
            &&& b.1.len() <= 20
            &&& forall|k: int| 0 <= k < b.1.len() ==> 0 <= #[trigger] b.1[k] < bound + 2 * g
        }),
    decreases n,
{
    if n > 0 {
        lemma_best_period_bounds(spikes, g, lo, n - 1, bound);
        lemma_best_start_bounds(
            spikes,
            g,
            lo + n - 1,
            spikes.len() - 2,
            best_period_upto(spikes, g, lo, n - 1),
            lo,
            lo + n,
            bound,
        );
    }
}

/// What the uneven-grid search returns stays bounded: a cell size under
/// 104, at most twenty offsets, all inside the projection.
pub proof fn lemma_uneven_bounds(cols: Seq<u32>, known: Option<usize>, g: int)
    requires
        1 <= g <= 3,
        match known {
            Option::Some(cs) => 1 <= cs <= 100,
            Option::None => true,
        },
    ensures
        ({
            let u = uneven_spec(cols, known, g);
            &&& 0 <= u.0
            &&& u.0 < (match known {
                Option::None => 60int,
                Option::Some(cs) => cs as int + 4,
            })
            &&& u.1.len() <= 20
            &&& forall|k: int| 0 <= k < u.1.len() ==> 0 <= #[trigger] u.1[k] < cols.len()
        }),
{
    if cols.len() >= 64 {
        let nwin = if cols.len() >= 2 * g {
            cols.len() - 2 * g
        } else {
            0int
        };
        let spikes = spikes_upto(cols, g, nwin);
        lemma_spikes_bounds(cols, g, nwin);
        if spikes.len() >= 3 {
            let lo = match known {
                Option::None => 12int,
                Option::Some(cs) => cs as int - 1,
            };
            let hi = match known {
                Option::None => 60int,
                Option::Some(cs) => cs as int + 4,
            };
            lemma_best_period_bounds(spikes, g, lo, hi - lo, nwin);
        }
    }
}

/// Whether a "+" intersection shows around the crossing of row gutter
/// `x` and column gutter `y`, tested on a small patch reaching back by
/// twice the gutter width; a patch that does not fit the frame counts as
/// no intersection.
pub open spec fn flex_isect_at(px: Seq<Seq<u32>>, w: int, h: int, g: int, x: int, y: int) -> bool {
    let r0 = if x >= 2 * g {
        x - 2 * g
    } else {
        0
    };
    let c0 = if y >= 2 * g {
        y - 2 * g
    } else {
        0
    };
    let s = 3 + g;
    if r0 + s <= h && c0 + s <= w {
        isect_spec(px, r0, c0, s)
    } else {
        false
    }
}

/// Number of column gutters among the first `m` whose crossing with row
/// gutter `x` shows an intersection.
pub open spec fn isect_count(
    px: Seq<Seq<u32>>,
    w: int,
    h: int,
    g: int,
    x: int,
    colg: Seq<int>,
    m: int,
) -> int
    decreases m,
{
    if m <= 0 {
        0
    } else {
        isect_count(px, w, h, g, x, colg, m - 1) + (if flex_isect_at(px, w, h, g, x, colg[m - 1]) {
            1int
        } else {
            0int
        })
    }
}

/// The row gutters among the first `n` that cross at least five column
/// gutters at an intersection.
pub open spec fn flex_retain(
    px: Seq<Seq<u32>>,
    w: int,
    h: int,
    g: int,
    rows: Seq<int>,
    colg: Seq<int>,
    n: int,
) -> Seq<int>
    decreases n,
{
    if n <= 0 {
        Seq::empty()
    } else {
        let prev = flex_retain(px, w, h, g, rows, colg, n - 1);
        if isect_count(px, w, h, g, rows[n - 1], colg, colg.len() as int) > 4 {
            prev.push(rows[n - 1])
        } else {
            prev
        }
    }
}

/// The flexible grid found in a frame: `(found, cellsize, rows, cols)`.
/// The row gutters come from the dip chains of the horizontal
/// projection (retried with a wider gutter for large cells), the column
/// gutters from the vertical projection of the rows' window with the
/// cell size locked, and rows without enough "+" intersections are
/// discarded.
pub open spec fn find_flex_spec(px: Seq<Seq<u32>>, w: int, h: int) -> (bool, int, Seq<int>, Seq<
    int,
>) {
    let proj = row_proj_spec(px, w, h);
    let u2 = uneven_spec(proj, Option::None, 2);
    if u2.0 == 0 || u2.1.len() < 5 {
        (false, 0, Seq::empty(), Seq::empty())
    } else {
        let g = if u2.0 > 26 {
            3int
        } else {
            2int
        };
        let u = if u2.0 > 26 {
            uneven_spec(proj, Option::None, 3)
        } else {
            u2
        };
        if u.0 == 0 || u.1.len() < 2 {
            (false, 0, Seq::empty(), Seq::empty())
        } else {
            let first = u.1[0];
            let lastv = u.1[u.1.len() - 1];
            if lastv <= first {
                (false, 0, Seq::empty(), Seq::empty())
            } else {
                let cproj = window_col_proj_spec(px, w, first, lastv - first);
                let uc = uneven_spec(cproj, Option::Some(u.0 as usize), g);
                if uc.1.len() < 5 {
                    (false, 0, Seq::empty(), Seq::empty())
                } else {
                    (
                        true,
                        u.0,
                        flex_retain(px, w, h, g, u.1, uc.1, u.1.len() as int),
                        uc.1,
                    )
                }
            }
        }
    }
}

impl ImageProcessor {
    /// Detect an uneven grid on the frame, without the final wrapping.
    #[verifier::loop_isolation(false)]
    #[verifier::rlimit(100)]
    fn find_flex_grid(&self) -> (r: Option<FlexGrid>)
        requires
            self.wf(),
        ensures
            ({
                let sp = find_flex_spec(self.px_view(), self.width_spec(), self.height_spec());
                match r {
                    Option::None => !sp.0,
                    Option::Some(fg) => {
                        &&& sp.0
                        &&& fg.cellsize as int == sp.1
                        &&& fg.rows_view().len() == sp.2.len()
                        &&& forall|k: int|
                            0 <= k < fg.rows_view().len() ==> fg.rows_view()[k] as int == sp.2[k]
                        &&& fg.cols_view().len() == sp.3.len()
                        &&& forall|k: int|
                            0 <= k < fg.cols_view().len() ==> fg.cols_view()[k] as int == sp.3[k]
                        &&& fg.rows_view().len() <= 20
                        &&& fg.cols_view().len() <= 20
                        &&& 1 <= fg.cellsize < 104
                    },
                }
            }),
    {
        let ghost px = self.px_view();
        let ghost w = self.width_spec();
        let ghost h = self.height_spec();
        let proj = self.row_projection();
        let (cs2, rows2) = find_uneven_grid_period(&proj, Option::None, 2);
        proof {
            lemma_uneven_bounds(proj@, Option::None, 2);
            assert(rows2@.map_values(|v: usize| v as int) =~= uneven_spec(
                proj@,
                Option::None,
                2,
            ).1);
        }
        if cs2 == 0 || rows2.len() < 5 {
            return Option::None;
        }
        let gutter: usize = if cs2 > 26 {
            3
        } else {
            2
        };
        let (cs, rows) = if cs2 > 26 {
            let redo = find_uneven_grid_period(&proj, Option::None, 3);
            proof {
                lemma_uneven_bounds(proj@, Option::None, 3);
            }
            redo
        } else {
            (cs2, rows2)
        };
        proof {
            let gi = gutter as int;
            let uspec = if cs2 > 26 {
                uneven_spec(proj@, Option::None, 3)
            } else {
                uneven_spec(proj@, Option::None, 2)
            };
            assert(rows@.map_values(|v: usize| v as int) =~= uspec.1);
            assert forall|k: int| 0 <= k < rows@.len() implies rows@[k] < self.height_spec() by {
                assert(rows@.map_values(|v: usize| v as int)[k] == rows@[k] as int);
                assert(0 <= uspec.1[k] < proj@.len());
            }
        }
        if cs == 0 || rows.len() < 2 {
            return Option::None;
        }
        let first = rows[0];
        let lastv = rows[rows.len() - 1];
        if lastv <= first {
            return Option::None;
        }
        let cproj = self.window_col_projection(first, lastv - first);
        let (_ccs, colg) = find_uneven_grid_period(&cproj, Option::Some(cs), gutter);
        proof {
            lemma_uneven_bounds(cproj@, Option::Some(cs), gutter as int);
            let cspec = uneven_spec(cproj@, Option::Some(cs), gutter as int);
            assert(colg@.map_values(|v: usize| v as int) =~= cspec.1);
            assert forall|k: int| 0 <= k < colg@.len() implies colg@[k] < self.width_spec() by {
                assert(colg@.map_values(|v: usize| v as int)[k] == colg@[k] as int);
                assert(0 <= cspec.1[k] < cproj@.len());
            }
        }
        if colg.len() < 5 {
            return Option::None;
        }
        let mut kept: Vec<usize> = Vec::new();
        let mut i: usize = 0;
        while i < rows.len()
            invariant
                i <= rows@.len(),
                forall|k: int| 0 <= k < rows@.len() ==> rows@[k] < 10_001,
                forall|k: int| 0 <= k < colg@.len() ==> colg@[k] < 10_001,
                kept@.len() == flex_retain(
                    px,
                    w,
                    h,
                    gutter as int,
                    rows@.map_values(|v: usize| v as int),
                    colg@.map_values(|v: usize| v as int),
                    i as int,
                ).len(),
                forall|k: int|
                    0 <= k < kept@.len() ==> kept@[k] as int == flex_retain(
                        px,
                        w,
                        h,
                        gutter as int,
                        rows@.map_values(|v: usize| v as int),
                        colg@.map_values(|v: usize| v as int),
                        i as int,
                    )[k],
                kept@.len() <= i,
            decreases rows@.len() - i,
        {
            let x = rows[i];
            let mut cnt: usize = 0;
            let mut j: usize = 0;
            while j < colg.len()
                invariant
                    j <= colg@.len(),
                    i < rows@.len(),
                    x == rows@[i as int],
                    x < 10_001,
                    forall|k: int| 0 <= k < colg@.len() ==> colg@[k] < 10_001,
                    cnt as int == isect_count(
                        px,
                        w,
                        h,
                        gutter as int,
                        x as int,
                        colg@.map_values(|v: usize| v as int),
                        j as int,
                    ),
                    cnt <= j,
                decreases colg@.len() - j,
            {
                let y = colg[j];
                let r0 = if x >= 2 * gutter {
                    x - 2 * gutter
                } else {
                    0
                };
                let c0 = if y >= 2 * gutter {
                    y - 2 * gutter
                } else {
                    0
                };
                let s = 3 + gutter;
                let hit = if r0 + s <= self.height && c0 + s <= self.width {
                    self.is_intersection(r0, c0, s)
                } else {
                    false
                };
                if hit {
                    cnt = cnt + 1;
                }
                j = j + 1;
            }
            if cnt > 4 {
                kept.push(x);
            }
            i = i + 1;
        }
        Option::Some(FlexGrid { cellsize: cs, rows: kept, cols: colg })
    }

    /// Find a flexible grid structure in the frame, or an empty grid
    /// when none is detected.
    pub fn detect_flex_grid(&self) -> (r: FlexGrid)
        requires
            self.wf(),
        ensures
            ({
                let sp = find_flex_spec(self.px_view(), self.width_spec(), self.height_spec());
                &&& !sp.0 ==> r.cellsize == 0 && r.rows_view().len() == 0 && r.cols_view().len()
                    == 0
                &&& sp.0 ==> {
                    &&& r.cellsize as int == sp.1
                    &&& r.rows_view().len() == sp.2.len()
                    &&& forall|k: int|
                        0 <= k < r.rows_view().len() ==> r.rows_view()[k] as int == sp.2[k]
                    &&& r.cols_view().len() == sp.3.len()
                    &&& forall|k: int|
                        0 <= k < r.cols_view().len() ==> r.cols_view()[k] as int == sp.3[k]
                }
            }),
            r.wf(),
    {
        let grid = self.find_flex_grid();
        match grid {
            Option::Some(g) => g,
            Option::None => FlexGrid { cellsize: 0, rows: Vec::new(), cols: Vec::new() },
        }
    }
}

impl ImageProcessor {
    /// Paint the detected walls black in the frame: every pixel covered
    /// by a wall cell of the maze is set to zero.
    #[verifier::loop_isolation(false)]
    pub fn debug_draw(&mut self, maze: &crate::maze::Maze)
        requires
            old(self).wf(),
            maze.wf(),
        ensures
            final(self).wf(),
            final(self).width_spec() == old(self).width_spec(),
            final(self).height_spec() == old(self).height_spec(),
            final(self).features_view() == old(self).features_view(),
            forall|i: int, j: int|
                0 <= i < old(self).height_spec() && 0 <= j < old(self).width_spec()
                    ==> #[trigger] final(self).px_at(i, j) == (if crate::maze::wall_covered(
                    *maze,
                    i,
                    j,
                ) {
                    0u32
                } else {
                    old(self).px_at(i, j)
                }),
    {
        let ghost wd = self.width_spec();
        let ghost ht = self.height_spec();
        proof {
            assert(wd * ht <= 100_000_000) by (nonlinear_arith)
                requires
                    0 < wd <= 10000,
                    0 < ht <= 10000,
            ;
        }
        let n = self.width * self.height;
        let mut buf: Vec<u32> = Vec::new();
        let mut p: usize = 0;
        while p < n
            invariant
                p <= n,
                n == wd * ht,
                buf@.len() == p,
                forall|q: int|
                    0 <= q < p ==> buf@[q] == (if crate::maze::wall_covered(
                        *maze,
                        q / wd,
                        q % wd,
                    ) {
                        0u32
                    } else {
                        self.px_at(q / wd, q % wd)
                    }),
                forall|q: int| 0 <= q < p ==> buf@[q] <= 500_000,
            decreases n - p,
        {
            proof {
                assert(p as int / wd < ht) by (nonlinear_arith)
                    requires
                        0 <= p < wd * ht,
                        0 < wd,
                ;
            }
            let i = p / self.width;
            let j = p % self.width;
            let v = if maze.covers_wall(i, j) {
                0
            } else {
                mat_get(&self.pixels, i, j)
            };
            buf.push(v);
            p = p + 1;
        }
        let pixels = mat_from_rows(self.height, self.width, &buf);
        proof {
            assert forall|i: int, j: int| 0 <= i < ht && 0 <= j < wd implies {
                &&& mat_cells(pixels)[i][j] == (if crate::maze::wall_covered(*maze, i, j) {
                    0u32
                } else {
                    self.px_at(i, j)
                })
                &&& mat_cells(pixels)[i][j] <= 500_000
            } by {
                assert(0 <= i * wd + j < wd * ht && (i * wd + j) / wd == i && (i * wd + j) % wd
                    == j) by (nonlinear_arith)
                    requires
                        0 <= i < ht,
                        0 <= j < wd,
                        0 < wd,
                ;
            }
        }
        self.pixels = pixels;
        proof {
            assert forall|i: int, j: int| 0 <= i < ht && 0 <= j < wd implies self.px_view()[i][j]
                <= 500_000 by {
                let covered = crate::maze::wall_covered(*maze, i, j);
                assert(mat_cells(pixels)[i][j] <= 500_000);
            }
            assert(self.wf());
        }
    }
}

/// Gray export byte of one intensity: a third of it, clamped to a byte.
pub open spec fn gray_byte(v: u32) -> u8 {
    if v / 3 > 255 {
        255u8
    } else {
        (v / 3) as u8
    }
}

/// The largest of the first `n` values is at most any pointwise bound.
proof fn lemma_prefix_max_le(s: Seq<u32>, n: int, bound: int)
    requires
        0 <= bound,
        forall|t: int| 0 <= t < n ==> s[t] <= bound,
    ensures
        prefix_max(s, n) <= bound,
    decreases n,
{
    if n > 0 {
        lemma_prefix_max_le(s, n - 1, bound);
    }
}

/// The smallest of the first `n` values (`n` at least one) is at most
/// any pointwise bound.
proof fn lemma_prefix_min_le(s: Seq<u32>, n: int, bound: int)
    requires
        n >= 1,
        forall|t: int| 0 <= t < n ==> s[t] <= bound,
    ensures
        prefix_min(s, n) <= bound,
    decreases n,
{
    if n > 1 {
        lemma_prefix_min_le(s, n - 1, bound);
    }
}

/// Dark-mode normalization over a raw luminance buffer, in place:
/// exactly the [`dark_adjusted`] transformation.
#[verifier::loop_isolation(false)]
fn adjust_dark_mode(lum: &mut Vec<u32>, width: usize, height: usize)
    requires
        1 <= width <= 10000,
        1 <= height <= 10000,
        old(lum)@.len() == width * height,
        forall|q: int| 0 <= q < old(lum)@.len() ==> old(lum)@[q] <= 750,
    ensures
        final(lum)@ == dark_adjusted(old(lum)@, width as int, height as int),
        forall|q: int| 0 <= q < final(lum)@.len() ==> final(lum)@[q] <= 500_000,
{
    let ghost orig = lum@;
    let n = lum.len();
    let mut means_total: u32 = 0;
    let mut i: usize = 0;
    while i < height
        invariant
            i <= height,
            lum@ == orig,
            means_total as int == row_means_sum(orig, width as int, i as int),
            means_total <= 750 * i,
        decreases height - i,
    {
        let mut rs: u32 = 0;
        let mut j: usize = 0;
        proof {
            assert((i as int + 1) * width <= width * height) by (nonlinear_arith)
                requires
                    i < height,
            ;
        }
        while j < width
            invariant
                i < height,
                j <= width,
                lum@ == orig,
                (i as int + 1) * width <= width * height,
                rs as int == range_sum(orig, i as int * width, j as int),
                rs <= 750 * j,
            decreases width - j,
        {
            proof {
                assert(i as int * width + j < (i as int + 1) * width) by (nonlinear_arith)
                    requires
                        j < width,
            ;
            }
            rs = rs + lum[i * width + j];
            j = j + 1;
        }
        means_total = means_total + rs / (width as u32);
        proof {
            assert(rs as int / width as int <= 750) by (nonlinear_arith)
                requires
                    rs <= 750 * width,
                    width >= 1,
            ;
        }
        i = i + 1;
    }
    let avg = means_total / (height as u32);
    proof {
        assert(avg as int == grand_mean(orig, width as int, height as int));
    }
    if avg < 384 {
        let mut gmax: u32 = 0;
        let mut gmin: u32 = u32::MAX;
        let mut q: usize = 0;
        while q < n
            invariant
                q <= n,
                lum@ == orig,
                n == orig.len(),
                gmax as int == prefix_max(orig, q as int),
                gmin as int == prefix_min(orig, q as int),
            decreases n - q,
        {
            let v = lum[q];
            if v >= gmax {
                gmax = v;
            }
            if v <= gmin {
                gmin = v;
            }
            q = q + 1;
        }
        proof {
            assert(n >= 1) by (nonlinear_arith)
                requires
                    n == width * height,
                    width >= 1,
                    height >= 1,
            ;
            lemma_prefix_max_le(orig, n as int, 750);
            lemma_prefix_min_le(orig, n as int, 750);
        }
        let mx = (gmax + avg) / 2;
        let mn = (gmin + avg) / 2;
        if mx > mn {
            let mut q2: usize = 0;
            while q2 < n
                invariant
                    q2 <= n,
                    n == orig.len(),
                    lum@.len() == n,
                    mx > mn,
                    mx <= 566,
                    forall|t: int| q2 <= t < n ==> lum@[t] == orig[t],
                    forall|t: int|
                        0 <= t < q2 ==> lum@[t] as int == (768 * (if orig[t] < mx {
                            mx - orig[t]
                        } else {
                            0
                        })) / (mx as int - mn as int),
                decreases n - q2,
            {
                let v = lum[q2];
                let shifted: u32 = if v < mx {
                    mx - v
                } else {
                    0
                };
                lum.set(q2, (768 * shifted) / (mx - mn));
                q2 = q2 + 1;
            }
            proof {
                assert(lum@ =~= dark_adjusted(orig, width as int, height as int));
                assert forall|t: int| 0 <= t < lum@.len() implies lum@[t] <= 500_000 by {
                    assert(768 * (if orig[t] < mx {
                        mx - orig[t]
                    } else {
                        0
                    }) / (mx as int - mn as int) <= 768 * 566) by (nonlinear_arith)
                        requires
                            mx > mn,
                            mx <= 566,
                    ;
                }
            }
        }
    }
}

} // verus!
