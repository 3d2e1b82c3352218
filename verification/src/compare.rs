//! The comparison of two images, pixel by pixel.
//!
//! Both images are laid on a canvas as wide as the wider and as tall as the
//! taller of the two, anchored at the top-left corner; past its own edges
//! an image reads as transparent black. Every position of the canvas is
//! then classified as matching or different.

use vstd::prelude::*;
use vstd::arithmetic::div_mod::{lemma_fundamental_div_mod, lemma_mod_bound};
use crate::metric::{
    distance_between,
    has_close_neighbour,
    is_antialiased,
    measure,
    Distance,
    Metric,
};
use crate::quantity::Threshold;
use crate::raster::{
    lemma_offset_in_bounds,
    pixel_at_offset,
    pixel_offset,
    Image,
    Pixel,
};
use crate::region::Region;
use crate::similarity::{mssim_bits, rgb_plane, structural_similarity, to_rgb_plane, MAX_SIDE};

verus! {

/// Everything a comparison depends on.
pub struct Scene {
    /// The baseline image.
    pub a: Image,
    /// The candidate image.
    pub b: Image,
    /// The metric that measures the distance between two pixels.
    pub metric: Metric,
    /// The threshold above which a distance counts as a difference.
    pub threshold: Threshold,
    /// The rectangles whose pixels always match.
    pub regions: Seq<Region>,
    /// The mask, if there is one.
    pub mask: Option<Image>,
}

/// Whether a mask pixel marks its position as ignored: pure black, or an
/// alpha below one half.
pub open spec fn mask_ignores(pixel: Pixel) -> bool {
    (pixel.r == 0 && pixel.g == 0 && pixel.b == 0) || pixel.a < 128
}

/// Whether some rectangle of the list covers `(x, y)`.
pub open spec fn covered(regions: Seq<Region>, x: int, y: int) -> bool {
    exists|index: int| 0 <= index < regions.len() && #[trigger] regions[index].covers(x, y)
}

/// Whether the mask marks `(x, y)` as ignored. A mask says nothing of a
/// position that lies off it.
pub open spec fn masked(mask: Option<Image>, x: int, y: int) -> bool {
    match mask {
        Some(image) => image.has(x, y) && mask_ignores(image.pixel(x, y)),
        None => false,
    }
}

/// The pixel that marks a difference on the overlay: opaque magenta.
pub open spec fn marker() -> Pixel {
    Pixel { r: 255, g: 0, b: 255, a: 255 }
}

/// A pixel dimmed for the overlay: each colour channel divided by
/// `divisor`, rounded down, and made opaque.
pub open spec fn dimmed(pixel: Pixel, divisor: int) -> Pixel {
    Pixel {
        r: (pixel.r as int / divisor) as u8,
        g: (pixel.g as int / divisor) as u8,
        b: (pixel.b as int / divisor) as u8,
        a: 255,
    }
}

impl Scene {
    /// The width of the canvas: that of the wider image.
    pub open spec fn width(self) -> int {
        if self.a.spec_width() >= self.b.spec_width() {
            self.a.spec_width() as int
        } else {
            self.b.spec_width() as int
        }
    }

    /// The height of the canvas: that of the taller image.
    pub open spec fn height(self) -> int {
        if self.a.spec_height() >= self.b.spec_height() {
            self.a.spec_height() as int
        } else {
            self.b.spec_height() as int
        }
    }

    /// Whether `(x, y)` lies on the canvas.
    pub open spec fn has(self, x: int, y: int) -> bool {
        0 <= x < self.width() && 0 <= y < self.height()
    }

    /// Whether `(x, y)` is ignored: covered by a rectangle, or marked by
    /// the mask.
    pub open spec fn is_ignored(self, x: int, y: int) -> bool {
        covered(self.regions, x, y) || masked(self.mask, x, y)
    }

    /// The distance measured between the two pixels at `(x, y)`.
    pub open spec fn measured(self, x: int, y: int) -> Distance {
        distance_between(self.metric, self.a.at(x, y), self.b.at(x, y))
    }

    /// Whether the measured distance at `(x, y)` is borderline: strictly
    /// between the threshold and one and a half times the threshold.
    pub open spec fn is_borderline(self, x: int, y: int) -> bool {
        self.measured(x, y).in_band(self.threshold)
    }

    /// Whether the candidate's pixel at `(x, y)` is taken for a shifted
    /// neighbour: borderline, and close to a neighbour in the baseline.
    pub open spec fn is_shifted(self, x: int, y: int) -> bool {
        self.is_borderline(x, y) && has_close_neighbour(
            self.metric,
            x,
            y,
            self.width(),
            self.height(),
            self.a,
            self.b,
        )
    }

    /// The distance that decides at `(x, y)`: nought where the position
    /// is ignored or the candidate's pixel is a shifted neighbour, else
    /// the measured distance.
    pub open spec fn distance(self, x: int, y: int) -> Distance {
        if self.is_ignored(x, y) || self.is_shifted(x, y) {
            Distance::nought(self.metric)
        } else {
            self.measured(x, y)
        }
    }

    /// Whether the two images differ at `(x, y)`: the deciding distance
    /// lies strictly above the threshold.
    pub open spec fn is_different(self, x: int, y: int) -> bool {
        self.distance(x, y).exceeds(self.threshold)
    }

    /// The number of differing positions among the first `columns` of
    /// row `y`.
    pub open spec fn differing_in_row(self, y: int, columns: nat) -> nat
        decreases columns,
    {
        if columns == 0 {
            0
        } else {
            let before = self.differing_in_row(y, (columns - 1) as nat);
            if self.is_different(columns - 1, y) {
                before + 1
            } else {
                before
            }
        }
    }

    /// The number of differing positions in the first `rows` rows of
    /// the canvas.
    pub open spec fn differing_in_rows(self, rows: nat) -> nat
        decreases rows,
    {
        if rows == 0 {
            0
        } else {
            self.differing_in_rows((rows - 1) as nat) + self.differing_in_row(
                rows - 1,
                self.width() as nat,
            )
        }
    }

    /// The number of differing positions on the canvas.
    pub open spec fn differing(self) -> nat {
        self.differing_in_rows(self.height() as nat)
    }

    /// The overlay's pixel at `(x, y)`: the marker where the images
    /// differ; else the baseline's pixel at a tenth of its brightness,
    /// or at a fiftieth where the position is ignored.
    pub open spec fn overlay_pixel(self, x: int, y: int) -> Pixel {
        if self.is_different(x, y) {
            marker()
        } else if self.is_ignored(x, y) {
            dimmed(self.a.at(x, y), 50)
        } else {
            dimmed(self.a.at(x, y), 10)
        }
    }

    /// The same scene under another threshold.
    pub open spec fn with_threshold(self, threshold: Threshold) -> Scene {
        Scene { threshold, ..self }
    }

    /// The same scene with other rectangles to ignore.
    pub open spec fn with_regions(self, regions: Seq<Region>) -> Scene {
        Scene { regions, ..self }
    }

    /// The same scene with another mask, or none.
    pub open spec fn with_mask(self, mask: Option<Image>) -> Scene {
        Scene { mask, ..self }
    }
}

/// No more positions differ in a stretch of a row than the stretch has.
pub proof fn lemma_row_count_bounded(scene: Scene, y: int, columns: nat)
    ensures
        scene.differing_in_row(y, columns) <= columns,
    decreases columns,
{
    if columns > 0 {
        lemma_row_count_bounded(scene, y, (columns - 1) as nat);
    }
}

/// No more positions differ in the first rows than these rows hold.
pub proof fn lemma_count_bounded(scene: Scene, rows: nat)
    ensures
        scene.differing_in_rows(rows) <= rows * scene.width(),
    decreases rows,
{
    if rows > 0 {
        lemma_count_bounded(scene, (rows - 1) as nat);
        lemma_row_count_bounded(scene, rows - 1, scene.width() as nat);
        assert(rows * scene.width() == (rows - 1) * scene.width() + scene.width())
            by (nonlinear_arith);
    }
}

/// Whether two images can be compared: no side of either is longer than
/// the similarity index allows.
pub open spec fn canvas_fits(a: Image, b: Image) -> bool {
    &&& a.spec_width() <= MAX_SIDE
    &&& a.spec_height() <= MAX_SIDE
    &&& b.spec_width() <= MAX_SIDE
    &&& b.spec_height() <= MAX_SIDE
}

/// Whether two images can be compared: no side of either is longer than
/// [`MAX_SIDE`] pixels.
pub fn fits_canvas(img_a: &Image, img_b: &Image) -> (fits: bool)
    ensures
        fits == canvas_fits(*img_a, *img_b),
{
    img_a.width() <= MAX_SIDE && img_a.height() <= MAX_SIDE && img_b.width() <= MAX_SIDE
        && img_b.height() <= MAX_SIDE
}

/// The mask behind an optional reference.
pub open spec fn mask_of(mask: Option<&Image>) -> Option<Image> {
    match mask {
        Some(image) => Some(*image),
        None => None,
    }
}

/// The scene that a comparison looks at.
pub open spec fn scene_of(
    metric: Metric,
    img_a: &Image,
    img_b: &Image,
    threshold: Threshold,
    ignore_regions: &[Region],
    mask: Option<&Image>,
) -> Scene {
    Scene {
        a: *img_a,
        b: *img_b,
        metric,
        threshold,
        regions: ignore_regions@,
        mask: mask_of(mask),
    }
}

/// What a comparison found.
pub struct DiffResult {
    /// The number of positions at which the images differ.
    pub diff_pixels: u64,
    /// The number of positions on the canvas.
    pub total_pixels: u64,
    /// The structural similarity index of the two images, as the bit
    /// pattern of a binary64 number.
    pub ssim_bits: u64,
    /// The overlay, where one was asked for.
    pub diff_image: Option<Image>,
}

impl DiffResult {
    /// Whether this is what the comparison of a scene yields, with or
    /// without an overlay.
    pub open spec fn describes(&self, scene: Scene, with_overlay: bool) -> bool {
        &&& self.total_pixels == scene.width() * scene.height()
        &&& self.diff_pixels == scene.differing()
        &&& self.diff_pixels <= self.total_pixels
        &&& self.total_pixels >= 1
        &&& self.ssim_bits == mssim_bits(
            scene.width() as u32,
            scene.height() as u32,
            rgb_plane(scene.a, scene.width(), scene.height()),
            rgb_plane(scene.b, scene.width(), scene.height()),
        )
        &&& with_overlay <==> self.diff_image is Some
        &&& self.diff_image matches Some(overlay) ==> {
            &&& overlay.spec_width() == scene.width()
            &&& overlay.spec_height() == scene.height()
            &&& forall|x: int, y: int|
                scene.has(x, y) ==> overlay.pixel(x, y) == #[trigger] scene.overlay_pixel(x, y)
        }
    }

    /// The score in millionths: the share of positions that match.
    pub open spec fn spec_score_ppm(&self) -> int {
        (self.total_pixels - self.diff_pixels) * 1_000_000 / (self.total_pixels as int)
    }

    /// Whether the two images differ anywhere.
    pub fn has_differences(&self) -> (found: bool)
        ensures
            found == (self.diff_pixels > 0),
    {
        self.diff_pixels > 0
    }

    /// The score `1 - diff_pixels / total_pixels` in millionths, rounded
    /// down: a million where nothing differs, nought where everything does.
    pub fn score_ppm(&self) -> (ppm: u32)
        requires
            self.diff_pixels <= self.total_pixels,
            self.total_pixels >= 1,
        ensures
            ppm == self.spec_score_ppm(),
            ppm <= 1_000_000,
            ppm == 1_000_000 <==> self.diff_pixels == 0,
    {
        let matching: u128 = (self.total_pixels - self.diff_pixels) as u128;
        let total: u128 = self.total_pixels as u128;
        let scaled: u128 = matching * 1_000_000;
        let ppm: u128 = scaled / total;
        proof {
            lemma_score_range(matching as int, total as int);
        }
        ppm as u32
    }
}

/// The score of `matching` positions out of `total` lies between nought
/// and a million, and reaches a million only where all positions match.
proof fn lemma_score_range(matching: int, total: int)
    requires
        0 <= matching <= total,
        total >= 1,
    ensures
        0 <= matching * 1_000_000 / total <= 1_000_000,
        matching * 1_000_000 / total == 1_000_000 <==> matching == total,
{
    lemma_fundamental_div_mod(matching * 1_000_000, total);
    lemma_mod_bound(matching * 1_000_000, total);
    let quotient = matching * 1_000_000 / total;
    let rest = matching * 1_000_000 % total;
    assert(total * quotient + rest == matching * 1_000_000);
    assert(quotient >= 0) by (nonlinear_arith)
        requires
            total * quotient + rest == matching * 1_000_000,
            0 <= rest < total,
            matching >= 0,
            total >= 1,
    ;
    assert(quotient <= 1_000_000) by (nonlinear_arith)
        requires
            total * quotient + rest == matching * 1_000_000,
            0 <= rest < total,
            matching <= total,
            total >= 1,
    ;
    assert(quotient == 1_000_000 ==> matching == total) by (nonlinear_arith)
        requires
            total * quotient + rest == matching * 1_000_000,
            0 <= rest < total,
            matching <= total,
            total >= 1,
    ;
    assert(matching == total ==> quotient == 1_000_000) by (nonlinear_arith)
        requires
            total * quotient + rest == matching * 1_000_000,
            0 <= rest < total,
            total >= 1,
    ;
}

/// Whether some rectangle of the list covers `(x, y)`.
fn is_covered(regions: &[Region], x: u32, y: u32) -> (inside: bool)
    ensures
        inside == covered(regions@, x as int, y as int),
{
    let mut index: usize = 0;
    while index < regions.len()
        invariant
            index <= regions@.len(),
            forall|earlier: int|
                0 <= earlier < index ==> !(#[trigger] regions@[earlier].covers(x as int, y as int)),
        decreases regions@.len() - index,
    {
        if regions[index].contains(x, y) {
            return true;
        }
        index = index + 1;
    }
    false
}

/// Whether the mask marks `(x, y)` as ignored.
fn is_masked(mask: Option<&Image>, x: u32, y: u32) -> (marked: bool)
    ensures
        marked == masked(mask_of(mask), x as int, y as int),
{
    match mask {
        Some(image) => {
            if x < image.width() && y < image.height() {
                let pixel = image.get_pixel(x, y);
                (pixel.r == 0 && pixel.g == 0 && pixel.b == 0) || pixel.a < 128
            } else {
                false
            }
        },
        None => false,
    }
}

/// A position that comes earlier in row-major order has the smaller index.
proof fn lemma_row_major_order(width: int, x: int, y: int, later_x: int, later_y: int)
    requires
        0 <= x < width,
        0 <= later_x <= width,
        0 <= y,
        y < later_y || (y == later_y && x < later_x),
    ensures
        y * width + x < later_y * width + later_x,
{
    if y < later_y {
        assert(y * width + width <= later_y * width) by (nonlinear_arith)
            requires
                y + 1 <= later_y,
                0 < width,
        ;
    }
}

/// Compares two images, position by position, under the perceptual
/// metric.
///
/// The result counts the positions of the canvas and those at which the
/// images differ, and carries the structural similarity index of the two
/// images laid on the canvas. Where `generate_diff` is set it also holds
/// the overlay, as large as the canvas.
///
/// No side of either image may be longer than [`MAX_SIDE`] pixels;
/// [`fits_canvas`] tells.
pub fn compare_images(
    img_a: &Image,
    img_b: &Image,
    threshold: Threshold,
    generate_diff: bool,
    ignore_regions: &[Region],
    mask: Option<&Image>,
) -> (result: DiffResult)
    requires
        canvas_fits(*img_a, *img_b),
    ensures
        result.describes(
            scene_of(Metric::Perceptual, img_a, img_b, threshold, ignore_regions, mask),
            generate_diff,
        ),
{
    compare_images_with(
        Metric::Perceptual,
        img_a,
        img_b,
        threshold,
        generate_diff,
        ignore_regions,
        mask,
    )
}

/// Compares two images, position by position, under the given metric.
///
/// No side of either image may be longer than [`MAX_SIDE`] pixels;
/// [`fits_canvas`] tells.
pub fn compare_images_with(
    metric: Metric,
    img_a: &Image,
    img_b: &Image,
    threshold: Threshold,
    generate_diff: bool,
    ignore_regions: &[Region],
    mask: Option<&Image>,
) -> (result: DiffResult)
    requires
        canvas_fits(*img_a, *img_b),
    ensures
        result.describes(
            scene_of(metric, img_a, img_b, threshold, ignore_regions, mask),
            generate_diff,
        ),
{
    let ghost scene = scene_of(metric, img_a, img_b, threshold, ignore_regions, mask);
    let width: u32 = if img_a.width() >= img_b.width() {
        img_a.width()
    } else {
        img_b.width()
    };
    let height: u32 = if img_a.height() >= img_b.height() {
        img_a.height()
    } else {
        img_b.height()
    };
    assert(width * height <= 0xffff_ffff * 0xffff_ffff) by (nonlinear_arith)
        requires
            0 <= width <= 0xffff_ffff,
            0 <= height <= 0xffff_ffff,
    ;
    let total_pixels: u64 = (width as u64) * (height as u64);
    let nought = Distance::zero(metric);
    let mut diff_pixels: u64 = 0;
    let mut buffer: Vec<u8> = Vec::new();
    let mut y: u32 = 0;
    while y < height
        invariant
            width == scene.width(),
            height == scene.height(),
            width >= 1,
            total_pixels == width * height,
            nought == Distance::nought(metric),
            scene == scene_of(metric, img_a, img_b, threshold, ignore_regions, mask),
            y <= height,
            diff_pixels == scene.differing_in_rows(y as nat),
            generate_diff ==> buffer@.len() == 4 * (y * width),
            !generate_diff ==> buffer@.len() == 0,
            generate_diff ==> forall|px: int, py: int|
                0 <= px < width && 0 <= py < y ==> pixel_at_offset(
                    buffer@,
                    pixel_offset(width as int, px, py),
                ) == #[trigger] scene.overlay_pixel(px, py),
        decreases height - y,
    {
        let mut x: u32 = 0;
        let ghost rows_before = diff_pixels;
        while x < width
            invariant
                width == scene.width(),
                height == scene.height(),
                width >= 1,
                total_pixels == width * height,
                nought == Distance::nought(metric),
                scene == scene_of(metric, img_a, img_b, threshold, ignore_regions, mask),
                y < height,
                x <= width,
                rows_before == scene.differing_in_rows(y as nat),
                diff_pixels == rows_before + scene.differing_in_row(y as int, x as nat),
                generate_diff ==> buffer@.len() == 4 * (y * width + x),
                !generate_diff ==> buffer@.len() == 0,
                generate_diff ==> forall|px: int, py: int|
                    0 <= px < width && 0 <= py && (py < y || (py == y && px < x))
                        ==> pixel_at_offset(buffer@, pixel_offset(width as int, px, py))
                        == #[trigger] scene.overlay_pixel(px, py),
            decreases width - x,
        {
            let ignored = is_covered(ignore_regions, x, y) || is_masked(mask, x, y);
            let pixel_a = img_a.read(x, y);
            let pixel_b = img_b.read(x, y);
            let distance = if ignored {
                nought
            } else {
                let measured = measure(metric, pixel_a, pixel_b);
                if measured.in_band(threshold) && is_antialiased(
                    metric,
                    x,
                    y,
                    width,
                    height,
                    img_a,
                    img_b,
                ) {
                    nought
                } else {
                    measured
                }
            };
            let different = distance.exceeds(threshold);
            assert(distance == scene.distance(x as int, y as int));
            assert(different == scene.is_different(x as int, y as int));
            proof {
                lemma_count_bounded(scene, y as nat);
                lemma_row_count_bounded(scene, y as int, x as nat);
                lemma_offset_in_bounds(width as int, height as int, x as int, y as int);
            }
            let painted = if different {
                diff_pixels = diff_pixels + 1;
                Pixel { r: 255, g: 0, b: 255, a: 255 }
            } else if ignored {
                Pixel { r: pixel_a.r / 50, g: pixel_a.g / 50, b: pixel_a.b / 50, a: 255 }
            } else {
                Pixel { r: pixel_a.r / 10, g: pixel_a.g / 10, b: pixel_a.b / 10, a: 255 }
            };
            assert(painted == scene.overlay_pixel(x as int, y as int));
            if generate_diff {
                let ghost before = buffer@;
                buffer.push(painted.r);
                buffer.push(painted.g);
                buffer.push(painted.b);
                buffer.push(painted.a);
                proof {
                    assert forall|px: int, py: int|
                        0 <= px < width && 0 <= py && (py < y || (py == y && px < x + 1))
                            implies pixel_at_offset(buffer@, pixel_offset(width as int, px, py))
                        == #[trigger] scene.overlay_pixel(px, py) by {
                        if py == y && px == x {
                        } else {
                            lemma_row_major_order(width as int, px, py, x as int, y as int);
                            assert(pixel_at_offset(buffer@, pixel_offset(width as int, px, py))
                                == pixel_at_offset(before, pixel_offset(width as int, px, py)));
                        }
                    }
                }
            }
            x = x + 1;
        }
        proof {
            assert((y + 1) * width == y * width + width) by (nonlinear_arith);
        }
        y = y + 1;
    }
    proof {
        lemma_count_bounded(scene, height as nat);
        assert(height * width == width * height) by (nonlinear_arith);
        assert(width * height >= 1) by (nonlinear_arith)
            requires
                width >= 1,
                height >= 1,
        ;
    }
    let plane_a = to_rgb_plane(img_a, width, height);
    let plane_b = to_rgb_plane(img_b, width, height);
    let ssim_bits = structural_similarity(width, height, plane_a, plane_b);
    let diff_image = if generate_diff {
        proof {
            assert(height * width == width * height) by (nonlinear_arith);
        }
        let overlay = Image::from_raw(width, height, buffer);
        assert(overlay is Some);
        overlay
    } else {
        None
    };
    DiffResult { diff_pixels, total_pixels, ssim_bits, diff_image }
}

} // verus!
