//! The distance between two pixels, and the test that tells a rendering
//! shift of one pixel from a change of content.
//!
//! Two metrics are at hand. The perceptual distance is
//! `(colour difference + alpha gap / 2.55) / 100`, where the colour
//! difference is the CIEDE2000 difference of the two colours and the alpha
//! gap is the absolute difference of the two alpha values. The Euclidean
//! distance is the length of the vector of the four channel differences,
//! each divided by 255. Neither is ever rounded: a perceptual distance
//! is weighed against a threshold on the distance scale, a Euclidean one
//! by its square.

use vstd::prelude::*;
use vstd::arithmetic::power2::{lemma_pow2_adds, lemma_pow2_pos, pow2};
use crate::binary32::{decode, reading_of, Reading, UNIT_SHIFT};
use crate::dyadic::{weigh, Balance};
use crate::quantity::{
    lemma_weighted_times,
    weigh_readings,
    weighted,
    Quantity,
    Threshold,
    ALPHA_WEIGHT,
    CLOSE_LIMIT,
    COLOUR_WEIGHT,
    FULL_SCALE,
};
use crate::raster::{Image, Pixel};

verus! {

/// Which distance is measured between two pixels.
#[derive(Clone, Copy, Debug, PartialEq, Eq, Structural)]
pub enum Metric {
    /// The CIEDE2000 colour difference and the alpha gap, added up.
    Perceptual,
    /// The Euclidean norm of the four channel differences.
    Euclidean,
}

/// The square of the largest value of a channel.
pub const CHANNEL_SQUARE: u64 = 65025;

/// Twice the binary exponent of the smallest step of a binary32 number:
/// the square of one step is `2^-298`.
pub const SQUARE_SHIFT: u32 = 298;

/// The binary32 bit pattern of the CIEDE2000 colour difference between
/// two sRGB colours, each given as red, green and blue.
pub uninterp spec fn ciede2000_bits(first: (u8, u8, u8), second: (u8, u8, u8)) -> u32;

/// Whether a binary32 bit pattern encodes a number below nought: a
/// negative infinity, or a finite number with the sign bit set that is
/// not nought itself.
pub open spec fn is_negative_number(bits: u32) -> bool {
    match reading_of(bits) {
        Reading::NotANumber => false,
        Reading::Infinite { negative } => negative,
        Reading::Finite { negative, mantissa, shift } => negative && mantissa > 0,
    }
}

/// Calls `delta_e::DE2000::from_rgb` on the two colours and hands back the
/// bit pattern of the number it returns. Two things are claimed of it:
/// the result is a function of the two colours alone, and it is no
/// number below nought, since the last step of the computation is a
/// square root.
#[verifier::external_body]
fn ciede2000(first: (u8, u8, u8), second: (u8, u8, u8)) -> (bits: u32)
    ensures
        bits == ciede2000_bits(first, second),
        !is_negative_number(bits),
{
    delta_e::DE2000::from_rgb(&[first.0, first.1, first.2], &[second.0, second.1, second.2]).to_bits()
}

/// The colour difference of two colours, as a binary32 bit pattern: nought
/// for one and the same colour, the CIEDE2000 difference for two.
pub open spec fn colour_difference(first: (u8, u8, u8), second: (u8, u8, u8)) -> u32 {
    if first == second {
        0
    } else {
        ciede2000_bits(first, second)
    }
}

/// The absolute difference of two channel values.
pub open spec fn channel_gap(first: u8, second: u8) -> u8 {
    if first >= second {
        (first - second) as u8
    } else {
        (second - first) as u8
    }
}

/// The sum of the squares of the four channel differences of two pixels.
pub open spec fn squared_gaps(first: Pixel, second: Pixel) -> int {
    channel_gap(first.r, second.r) * channel_gap(first.r, second.r) + channel_gap(
        first.g,
        second.g,
    ) * channel_gap(first.g, second.g) + channel_gap(first.b, second.b) * channel_gap(
        first.b,
        second.b,
    ) + channel_gap(first.a, second.a) * channel_gap(first.a, second.a)
}

/// A perceptual distance on the distance scale.
pub open spec fn perceptual_quantity(colour: u32, alpha: u8) -> Quantity {
    weighted(
        reading_of(colour),
        COLOUR_WEIGHT as int,
        (ALPHA_WEIGHT * alpha) * pow2(UNIT_SHIFT as nat),
    )
}

/// Whether the Euclidean distance with the given sum of squares lies
/// strictly above a threshold: the threshold is negative, or its square
/// is smaller than the square of the distance.
pub open spec fn root_exceeds(squares: int, threshold: Reading) -> bool {
    match threshold {
        Reading::NotANumber => false,
        Reading::Infinite { negative } => negative,
        Reading::Finite { negative, mantissa, shift } => {
            let steps = threshold.steps();
            steps < 0 || CHANNEL_SQUARE * (steps * steps) < squares * pow2(SQUARE_SHIFT as nat)
        },
    }
}

/// Whether the Euclidean distance with the given sum of squares lies
/// strictly below one and a half times a threshold: the threshold is
/// positive, and four times the square of the distance is smaller than
/// nine times the square of the threshold.
pub open spec fn root_within_half_more(squares: int, threshold: Reading) -> bool {
    match threshold {
        Reading::NotANumber => false,
        Reading::Infinite { negative } => !negative,
        Reading::Finite { negative, mantissa, shift } => {
            let steps = threshold.steps();
            steps > 0 && 4 * (squares * pow2(SQUARE_SHIFT as nat)) < 9 * (CHANNEL_SQUARE * (steps
                * steps))
        },
    }
}

/// The square of a finite reading's number of steps, and its sign.
proof fn lemma_steps_squared(negative: bool, mantissa: u32, shift: u32)
    ensures
        ({
            let steps = (Reading::Finite { negative, mantissa, shift }).steps();
            &&& steps * steps == (mantissa * mantissa) * pow2((2 * shift) as nat)
            &&& steps < 0 <==> negative && mantissa > 0
            &&& steps > 0 <==> !negative && mantissa > 0
        }),
{
    let grain = pow2(shift as nat) as int;
    lemma_pow2_pos(shift as nat);
    lemma_pow2_adds(shift as nat, shift as nat);
    assert((mantissa * grain) * (mantissa * grain) == (mantissa * mantissa) * (grain * grain))
        by (nonlinear_arith);
    assert((-(mantissa * grain)) * (-(mantissa * grain)) == (mantissa * mantissa) * (grain
        * grain)) by (nonlinear_arith);
    assert(mantissa > 0 ==> mantissa * grain > 0) by (nonlinear_arith)
        requires
            grain > 0,
    ;
    assert(mantissa == 0 ==> mantissa * grain == 0) by (nonlinear_arith);
}

/// Decides [`root_exceeds`].
fn root_weighs_above(squares: u32, threshold: Reading) -> (above: bool)
    requires
        threshold is Finite ==> threshold.is_regular(),
    ensures
        above == root_exceeds(squares as int, threshold),
{
    match threshold {
        Reading::NotANumber => false,
        Reading::Infinite { negative } => negative,
        Reading::Finite { negative, mantissa, shift } => {
            proof {
                lemma_steps_squared(negative, mantissa, shift);
            }
            if negative && mantissa > 0 {
                true
            } else {
                assert(mantissa * mantissa <= 0xff_ffff * 0xff_ffff) by (nonlinear_arith)
                    requires
                        0 <= mantissa <= 0xff_ffff,
                ;
                let square: u128 = (mantissa as u128) * (mantissa as u128);
                let scaled: u128 = (CHANNEL_SQUARE as u128) * square;
                proof {
                    let power = pow2((2 * shift) as nat) as int;
                    assert(CHANNEL_SQUARE * (square * power) == scaled * power)
                        by (nonlinear_arith)
                        requires
                            scaled == CHANNEL_SQUARE * square,
                    ;
                }
                match weigh(scaled, 2 * shift, squares as u128, SQUARE_SHIFT) {
                    Balance::Below => true,
                    _ => false,
                }
            }
        },
    }
}

/// Decides [`root_within_half_more`].
fn root_weighs_within_half_more(squares: u32, threshold: Reading) -> (within: bool)
    requires
        threshold is Finite ==> threshold.is_regular(),
    ensures
        within == root_within_half_more(squares as int, threshold),
{
    match threshold {
        Reading::NotANumber => false,
        Reading::Infinite { negative } => !negative,
        Reading::Finite { negative, mantissa, shift } => {
            proof {
                lemma_steps_squared(negative, mantissa, shift);
            }
            if negative || mantissa == 0 {
                false
            } else {
                assert(mantissa * mantissa <= 0xff_ffff * 0xff_ffff) by (nonlinear_arith)
                    requires
                        0 <= mantissa <= 0xff_ffff,
                ;
                let square: u128 = (mantissa as u128) * (mantissa as u128);
                let scaled: u128 = 9 * ((CHANNEL_SQUARE as u128) * square);
                let fourfold: u128 = 4 * (squares as u128);
                proof {
                    let power = pow2((2 * shift) as nat) as int;
                    let unit = pow2(SQUARE_SHIFT as nat) as int;
                    assert(9 * (CHANNEL_SQUARE * (square * power)) == scaled * power)
                        by (nonlinear_arith)
                        requires
                            scaled == 9 * (CHANNEL_SQUARE * square),
                    ;
                    assert(4 * (squares * unit) == fourfold * unit) by (nonlinear_arith)
                        requires
                            fourfold == 4 * squares,
                    ;
                }
                match weigh(fourfold, SQUARE_SHIFT, scaled, 2 * shift) {
                    Balance::Below => true,
                    _ => false,
                }
            }
        },
    }
}

/// A distance between two pixels, held as what was measured.
#[derive(Clone, Copy, Debug, PartialEq, Eq, Structural)]
pub enum Distance {
    /// A perceptual distance: the binary32 bit pattern of the colour
    /// difference, and the gap between the two alpha values.
    Perceptual { colour: u32, alpha: u8 },
    /// A Euclidean distance: the sum of the squares of the four channel
    /// differences.
    Euclidean { squares: u32 },
}

impl Distance {
    /// The distance of a pixel from itself under a metric.
    pub open spec fn nought(metric: Metric) -> Distance {
        match metric {
            Metric::Perceptual => Distance::Perceptual { colour: 0, alpha: 0 },
            Metric::Euclidean => Distance::Euclidean { squares: 0 },
        }
    }

    /// Whether the distance lies strictly above the threshold.
    pub open spec fn spec_exceeds(&self, threshold: Threshold) -> bool {
        match *self {
            Distance::Perceptual { colour, alpha } => threshold@.below(
                perceptual_quantity(colour, alpha),
            ),
            Distance::Euclidean { squares } => root_exceeds(
                squares as int,
                reading_of(threshold.bits),
            ),
        }
    }

    /// Whether the distance lies strictly below one and a half times the
    /// threshold.
    pub open spec fn spec_within_half_more(&self, threshold: Threshold) -> bool {
        match *self {
            Distance::Perceptual { colour, alpha } => perceptual_quantity(colour, alpha).times(
                2,
            ).below(threshold@.times(3)),
            Distance::Euclidean { squares } => root_within_half_more(
                squares as int,
                reading_of(threshold.bits),
            ),
        }
    }

    /// Whether the distance lies in the borderline band of the
    /// threshold: strictly above it, and strictly below one and a half
    /// times it.
    pub open spec fn spec_in_band(&self, threshold: Threshold) -> bool {
        self.spec_exceeds(threshold) && self.spec_within_half_more(threshold)
    }

    /// Whether the distance lies strictly below nought. The length of
    /// a vector never does.
    pub open spec fn is_negative(&self) -> bool {
        match *self {
            Distance::Perceptual { colour, alpha } => perceptual_quantity(colour, alpha).below(
                Quantity::zero(),
            ),
            Distance::Euclidean { squares } => false,
        }
    }

    /// Whether the distance lies strictly below 0.05.
    pub open spec fn spec_is_close(&self) -> bool {
        match *self {
            Distance::Perceptual { colour, alpha } => perceptual_quantity(colour, alpha).below(
                Quantity::close_limit(),
            ),
            Distance::Euclidean { squares } => 400 * squares < CHANNEL_SQUARE,
        }
    }

    /// The distance of a pixel from itself under a metric.
    pub fn zero(metric: Metric) -> (distance: Distance)
        ensures
            distance == Distance::nought(metric),
    {
        match metric {
            Metric::Perceptual => Distance::Perceptual { colour: 0, alpha: 0 },
            Metric::Euclidean => Distance::Euclidean { squares: 0 },
        }
    }

    /// Whether the distance lies strictly above the threshold.
    #[verifier::when_used_as_spec(spec_exceeds)]
    pub fn exceeds(&self, threshold: Threshold) -> (above: bool)
        ensures
            above == self.spec_exceeds(threshold),
    {
        match *self {
            Distance::Perceptual { colour, alpha } => {
                let extra: u64 = ALPHA_WEIGHT * (alpha as u64);
                let balance = weigh_readings(
                    decode(colour),
                    COLOUR_WEIGHT,
                    extra,
                    decode(threshold.bits),
                    FULL_SCALE,
                );
                match balance {
                    Some(Balance::Above) => true,
                    _ => false,
                }
            },
            Distance::Euclidean { squares } => root_weighs_above(squares, decode(threshold.bits)),
        }
    }

    /// Whether the distance lies strictly below one and a half times the
    /// threshold.
    #[verifier::when_used_as_spec(spec_within_half_more)]
    pub fn within_half_more(&self, threshold: Threshold) -> (within: bool)
        ensures
            within == self.spec_within_half_more(threshold),
    {
        match *self {
            Distance::Perceptual { colour, alpha } => {
                let extra: u64 = 2 * ALPHA_WEIGHT * (alpha as u64);
                proof {
                    lemma_weighted_times(
                        reading_of(colour),
                        COLOUR_WEIGHT as int,
                        (ALPHA_WEIGHT * alpha) * pow2(UNIT_SHIFT as nat),
                        2,
                    );
                    lemma_weighted_times(reading_of(threshold.bits), FULL_SCALE as int, 0, 3);
                    assert(2 * ((ALPHA_WEIGHT * alpha) * pow2(UNIT_SHIFT as nat)) == extra * pow2(
                        UNIT_SHIFT as nat,
                    )) by (nonlinear_arith)
                        requires
                            extra == 2 * ALPHA_WEIGHT * alpha,
                    ;
                }
                let balance = weigh_readings(
                    decode(colour),
                    2 * COLOUR_WEIGHT,
                    extra,
                    decode(threshold.bits),
                    3 * FULL_SCALE,
                );
                match balance {
                    Some(Balance::Below) => true,
                    _ => false,
                }
            },
            Distance::Euclidean { squares } => root_weighs_within_half_more(
                squares,
                decode(threshold.bits),
            ),
        }
    }

    /// Whether the distance lies in the borderline band of the
    /// threshold: strictly above it, and strictly below one and a half
    /// times it.
    #[verifier::when_used_as_spec(spec_in_band)]
    pub fn in_band(&self, threshold: Threshold) -> (inside: bool)
        ensures
            inside == self.spec_in_band(threshold),
    {
        self.exceeds(threshold) && self.within_half_more(threshold)
    }

    /// Whether the distance lies strictly below 0.05.
    #[verifier::when_used_as_spec(spec_is_close)]
    pub fn is_close(&self) -> (close: bool)
        ensures
            close == self.spec_is_close(),
    {
        match *self {
            Distance::Perceptual { colour, alpha } => {
                let extra: u64 = ALPHA_WEIGHT * (alpha as u64);
                let one = Reading::Finite { negative: false, mantissa: 1, shift: UNIT_SHIFT };
                proof {
                    assert(CLOSE_LIMIT * (1 * pow2(UNIT_SHIFT as nat)) + 0 == CLOSE_LIMIT * pow2(
                        UNIT_SHIFT as nat,
                    )) by (nonlinear_arith);
                }
                let balance = weigh_readings(decode(colour), COLOUR_WEIGHT, extra, one, CLOSE_LIMIT);
                match balance {
                    Some(Balance::Below) => true,
                    _ => false,
                }
            },
            Distance::Euclidean { squares } => {
                squares <= 162
            },
        }
    }
}

/// The distance between two pixels under a metric.
pub open spec fn distance_between(metric: Metric, first: Pixel, second: Pixel) -> Distance {
    match metric {
        Metric::Perceptual => Distance::Perceptual {
            colour: colour_difference(first.rgb(), second.rgb()),
            alpha: channel_gap(first.a, second.a),
        },
        Metric::Euclidean => Distance::Euclidean { squares: squared_gaps(first, second) as u32 },
    }
}

/// The absolute difference of two channel values.
fn gap(first: u8, second: u8) -> (gap: u8)
    ensures
        gap == channel_gap(first, second),
{
    if first >= second {
        first - second
    } else {
        second - first
    }
}

/// A colour difference that is no number below nought makes a
/// perceptual distance that is not below nought either.
pub proof fn lemma_not_negative(colour: u32, alpha: u8)
    requires
        !is_negative_number(colour),
    ensures
        !(Distance::Perceptual { colour, alpha }).is_negative(),
{
    let reading = reading_of(colour);
    lemma_pow2_pos(UNIT_SHIFT as nat);
    assert((ALPHA_WEIGHT * alpha) * pow2(UNIT_SHIFT as nat) >= 0) by (nonlinear_arith)
        requires
            alpha >= 0,
            pow2(UNIT_SHIFT as nat) > 0,
    ;
    match reading {
        Reading::Finite { negative, mantissa, shift } => {
            lemma_pow2_pos(shift as nat);
            assert(mantissa * pow2(shift as nat) >= 0) by (nonlinear_arith)
                requires
                    mantissa >= 0,
                    pow2(shift as nat) > 0,
            ;
            assert(mantissa == 0 ==> mantissa * pow2(shift as nat) == 0) by (nonlinear_arith);
            assert(COLOUR_WEIGHT * reading.steps() >= 0) by (nonlinear_arith)
                requires
                    reading.steps() >= 0,
            ;
        },
        _ => {},
    }
}

/// Measures the perceptual distance between two pixels. The colour
/// metric is consulted for two different colours only.
pub fn color_distance(first: Pixel, second: Pixel) -> (distance: Distance)
    ensures
        distance == distance_between(Metric::Perceptual, first, second),
        !distance.is_negative(),
{
    let colour: u32 = if first.r == second.r && first.g == second.g && first.b == second.b {
        0
    } else {
        ciede2000((first.r, first.g, first.b), (second.r, second.g, second.b))
    };
    proof {
        lemma_not_negative(colour, channel_gap(first.a, second.a));
    }
    Distance::Perceptual { colour, alpha: gap(first.a, second.a) }
}

/// Measures the Euclidean distance between two pixels.
pub fn euclidean_distance(first: Pixel, second: Pixel) -> (distance: Distance)
    ensures
        distance == distance_between(Metric::Euclidean, first, second),
        squared_gaps(first, second) <= 4 * CHANNEL_SQUARE,
{
    let red: u32 = gap(first.r, second.r) as u32;
    let green: u32 = gap(first.g, second.g) as u32;
    let blue: u32 = gap(first.b, second.b) as u32;
    let alpha: u32 = gap(first.a, second.a) as u32;
    assert(red * red <= 255 * 255 && green * green <= 255 * 255 && blue * blue <= 255 * 255
        && alpha * alpha <= 255 * 255) by (nonlinear_arith)
        requires
            0 <= red <= 255,
            0 <= green <= 255,
            0 <= blue <= 255,
            0 <= alpha <= 255,
    ;
    Distance::Euclidean { squares: red * red + green * green + blue * blue + alpha * alpha }
}

/// Measures the distance between two pixels under a metric.
pub fn measure(metric: Metric, first: Pixel, second: Pixel) -> (distance: Distance)
    ensures
        distance == distance_between(metric, first, second),
        !distance.is_negative(),
{
    match metric {
        Metric::Perceptual => color_distance(first, second),
        Metric::Euclidean => euclidean_distance(first, second),
    }
}

/// A pixel is at distance nought from itself.
pub proof fn lemma_distance_to_self(metric: Metric, pixel: Pixel)
    ensures
        distance_between(metric, pixel, pixel) == Distance::nought(metric),
{
    assert(channel_gap(pixel.r, pixel.r) == 0);
    assert(squared_gaps(pixel, pixel) == 0) by (nonlinear_arith)
        requires
            channel_gap(pixel.r, pixel.r) == 0,
            channel_gap(pixel.g, pixel.g) == 0,
            channel_gap(pixel.b, pixel.b) == 0,
            channel_gap(pixel.a, pixel.a) == 0,
            squared_gaps(pixel, pixel) == channel_gap(pixel.r, pixel.r) * channel_gap(
                pixel.r,
                pixel.r,
            ) + channel_gap(pixel.g, pixel.g) * channel_gap(pixel.g, pixel.g) + channel_gap(
                pixel.b,
                pixel.b,
            ) * channel_gap(pixel.b, pixel.b) + channel_gap(pixel.a, pixel.a) * channel_gap(
                pixel.a,
                pixel.a,
            ),
    ;
}

/// The distance nought lies above the negative thresholds and no others.
pub proof fn lemma_nought_exceeds(metric: Metric, threshold: Threshold)
    ensures
        Distance::nought(metric).exceeds(threshold) == threshold@.below(Quantity::zero()),
{
    let reading = reading_of(threshold.bits);
    let nothing = reading_of(0);
    assert(nothing == Reading::Finite { negative: false, mantissa: 0, shift: 0 });
    assert(0 * pow2(0) == 0) by (nonlinear_arith);
    assert((ALPHA_WEIGHT * 0) * pow2(UNIT_SHIFT as nat) == 0) by (nonlinear_arith);
    assert(perceptual_quantity(0, 0) == Quantity::zero());
    if reading is Finite {
        let steps = reading.steps();
        assert(CHANNEL_SQUARE * (steps * steps) >= 0) by (nonlinear_arith);
        assert(0 * pow2(SQUARE_SHIFT as nat) == 0) by (nonlinear_arith);
    }
}

/// A distance that lies above a threshold lies above every lower
/// threshold too.
pub proof fn lemma_exceeds_lower_threshold(distance: Distance, lower: Threshold, higher: Threshold)
    requires
        lower@.at_most(higher@),
        distance.exceeds(higher),
    ensures
        distance.exceeds(lower),
{
    let low = reading_of(lower.bits);
    let high = reading_of(higher.bits);
    if distance is Euclidean && low is Finite && high is Finite {
        let small = low.steps();
        let large = high.steps();
        assert(small <= large);
        if small >= 0 {
            assert(small * small <= large * large) by (nonlinear_arith)
                requires
                    0 <= small <= large,
            ;
            assert(CHANNEL_SQUARE * (small * small) <= CHANNEL_SQUARE * (large * large))
                by (nonlinear_arith)
                requires
                    small * small <= large * large,
            ;
        }
    }
}

/// A distance that lies below one and a half times a threshold lies
/// below one and a half times every higher threshold too.
pub proof fn lemma_within_half_more_of_higher_threshold(
    distance: Distance,
    lower: Threshold,
    higher: Threshold,
)
    requires
        lower@.at_most(higher@),
        distance.within_half_more(lower),
    ensures
        distance.within_half_more(higher),
{
    let low = reading_of(lower.bits);
    let high = reading_of(higher.bits);
    if distance is Euclidean && low is Finite && high is Finite {
        let small = low.steps();
        let large = high.steps();
        assert(small <= large);
        assert(small * small <= large * large) by (nonlinear_arith)
            requires
                0 <= small <= large,
        ;
        assert(9 * (CHANNEL_SQUARE * (small * small)) <= 9 * (CHANNEL_SQUARE * (large * large)))
            by (nonlinear_arith)
            requires
                small * small <= large * large,
        ;
    }
}

/// Only a positive threshold has a borderline band: a distance in the
/// band of a threshold shows that nought does not lie above it.
pub proof fn lemma_band_is_above_nought(metric: Metric, distance: Distance, threshold: Threshold)
    requires
        distance.in_band(threshold),
    ensures
        !Distance::nought(metric).exceeds(threshold),
{
    lemma_nought_exceeds(metric, threshold);
}

/// Whether two pixels are closer than 0.05 under a metric.
pub open spec fn is_close_to(metric: Metric, pixel: Pixel, neighbour: Pixel) -> bool {
    distance_between(metric, pixel, neighbour).is_close()
}

/// Whether the pixel of `img_b` at `(x, y)` is closer than 0.05 to one of
/// the four neighbours of that position in `img_a`: the positions to its
/// left, to its right, above it and below it, read on a canvas of the
/// given width and height. A neighbour off the canvas is left out, so a
/// position on an edge has fewer than four, and the position itself is
/// never among them.
pub open spec fn has_close_neighbour(
    metric: Metric,
    x: int,
    y: int,
    width: int,
    height: int,
    img_a: Image,
    img_b: Image,
) -> bool {
    let pixel = img_b.at(x, y);
    ||| (1 <= x && x - 1 < width && y < height && is_close_to(metric, pixel, img_a.at(x - 1, y)))
    ||| (x + 1 < width && y < height && is_close_to(metric, pixel, img_a.at(x + 1, y)))
    ||| (x < width && 1 <= y && y - 1 < height && is_close_to(metric, pixel, img_a.at(x, y - 1)))
    ||| (x < width && y + 1 < height && is_close_to(metric, pixel, img_a.at(x, y + 1)))
}

/// Whether the pixel of `img_b` at `(x, y)` looks like a neighbour of that
/// position in `img_a`, shifted by one pixel.
pub fn is_antialiased(
    metric: Metric,
    x: u32,
    y: u32,
    width: u32,
    height: u32,
    img_a: &Image,
    img_b: &Image,
) -> (shifted: bool)
    ensures
        shifted == has_close_neighbour(
            metric,
            x as int,
            y as int,
            width as int,
            height as int,
            *img_a,
            *img_b,
        ),
{
    let pixel = img_b.read(x, y);
    if x >= 1 && x - 1 < width && y < height && measure(
        metric,
        pixel,
        img_a.read(x - 1, y),
    ).is_close() {
        return true;
    }
    if x < u32::MAX && x + 1 < width && y < height && measure(
        metric,
        pixel,
        img_a.read(x + 1, y),
    ).is_close() {
        return true;
    }
    if x < width && y >= 1 && y - 1 < height && measure(
        metric,
        pixel,
        img_a.read(x, y - 1),
    ).is_close() {
        return true;
    }
    if y < u32::MAX && x < width && y + 1 < height && measure(
        metric,
        pixel,
        img_a.read(x, y + 1),
    ).is_close() {
        return true;
    }
    false
}

} // verus!
