//! What holds of every comparison, whatever the images are.

use vstd::prelude::*;
use crate::compare::{covered, masked, Scene};
use crate::metric::{
    has_close_neighbour,
    lemma_band_is_above_nought,
    lemma_distance_to_self,
    lemma_exceeds_lower_threshold,
    lemma_nought_exceeds,
    lemma_within_half_more_of_higher_threshold,
    Distance,
    Metric,
};
use crate::quantity::{Quantity, Threshold};
use crate::raster::Image;
use crate::region::Region;

verus! {

/// Where no position of a stretch of a row differs, the stretch counts
/// nought.
proof fn lemma_quiet_row(scene: Scene, y: int, columns: nat)
    requires
        forall|x: int| 0 <= x < columns ==> !scene.is_different(x, y),
    ensures
        scene.differing_in_row(y, columns) == 0,
    decreases columns,
{
    if columns > 0 {
        lemma_quiet_row(scene, y, (columns - 1) as nat);
    }
}

/// Where no position of the first rows differs, these rows count nought.
proof fn lemma_quiet_rows(scene: Scene, rows: nat)
    requires
        forall|x: int, y: int| 0 <= x < scene.width() && 0 <= y < rows ==> !scene.is_different(x, y),
    ensures
        scene.differing_in_rows(rows) == 0,
    decreases rows,
{
    if rows > 0 {
        lemma_quiet_rows(scene, (rows - 1) as nat);
        lemma_quiet_row(scene, rows - 1, scene.width() as nat);
    }
}

/// Where every differing position of a stretch of a row in one scene
/// differs in another scene too, the other scene counts at least as many.
proof fn lemma_row_counts_follow(fewer: Scene, more: Scene, y: int, columns: nat)
    requires
        forall|x: int| 0 <= x < columns && fewer.is_different(x, y) ==> more.is_different(x, y),
    ensures
        fewer.differing_in_row(y, columns) <= more.differing_in_row(y, columns),
    decreases columns,
{
    if columns > 0 {
        lemma_row_counts_follow(fewer, more, y, (columns - 1) as nat);
    }
}

/// The same, for the first rows of two canvases of one width.
proof fn lemma_rows_counts_follow(fewer: Scene, more: Scene, rows: nat)
    requires
        fewer.width() == more.width(),
        forall|x: int, y: int|
            0 <= x < fewer.width() && 0 <= y < rows && fewer.is_different(x, y)
                ==> more.is_different(x, y),
    ensures
        fewer.differing_in_rows(rows) <= more.differing_in_rows(rows),
    decreases rows,
{
    if rows > 0 {
        lemma_rows_counts_follow(fewer, more, (rows - 1) as nat);
        lemma_row_counts_follow(fewer, more, rows - 1, fewer.width() as nat);
    }
}

/// A comparison in which no position of the canvas differs counts no
/// differing pixel.
pub proof fn lemma_nothing_differs(scene: Scene)
    requires
        forall|x: int, y: int| scene.has(x, y) ==> !scene.is_different(x, y),
    ensures
        scene.differing() == 0,
{
    lemma_quiet_rows(scene, scene.height() as nat);
}

/// Of two comparisons on canvases of one size, the one whose differing
/// positions all differ in the other counts no more differing pixels
/// than the other.
pub proof fn lemma_counts_follow_positions(fewer: Scene, more: Scene)
    requires
        fewer.width() == more.width(),
        fewer.height() == more.height(),
        forall|x: int, y: int|
            fewer.has(x, y) && fewer.is_different(x, y) ==> more.is_different(x, y),
    ensures
        fewer.differing() <= more.differing(),
{
    lemma_rows_counts_follow(fewer, more, fewer.height() as nat);
}

/// An ignored position never differs under a threshold that is not
/// negative.
pub proof fn lemma_ignored_position_matches(scene: Scene, x: int, y: int)
    requires
        scene.is_ignored(x, y),
        !scene.threshold@.below(Quantity::zero()),
    ensures
        !scene.is_different(x, y),
{
    lemma_nought_exceeds(scene.metric, scene.threshold);
}

/// An ignored position differs under a negative threshold.
pub proof fn lemma_ignored_position_differs_below_nought(scene: Scene, x: int, y: int)
    requires
        scene.is_ignored(x, y),
        scene.threshold@.below(Quantity::zero()),
    ensures
        scene.is_different(x, y),
{
    lemma_nought_exceeds(scene.metric, scene.threshold);
}

/// An image compared with itself shows no differing pixel under any
/// threshold that is not negative, whatever is ignored.
pub proof fn lemma_same_image_matches(scene: Scene)
    requires
        scene.a == scene.b,
        !scene.threshold@.below(Quantity::zero()),
    ensures
        scene.differing() == 0,
{
    assert forall|x: int, y: int| scene.has(x, y) implies !scene.is_different(x, y) by {
        lemma_distance_to_self(scene.metric, scene.a.at(x, y));
        lemma_nought_exceeds(scene.metric, scene.threshold);
    }
    lemma_nothing_differs(scene);
}

/// A position that differs under a threshold differs under every lower
/// threshold too.
pub proof fn lemma_lower_threshold_keeps_difference(
    scene: Scene,
    higher: Threshold,
    x: int,
    y: int,
)
    requires
        scene.threshold@.at_most(higher@),
        scene.with_threshold(higher).is_different(x, y),
    ensures
        scene.is_different(x, y),
{
    let raised = scene.with_threshold(higher);
    let measured = scene.measured(x, y);
    let nought = Distance::nought(scene.metric);
    assert(raised.is_ignored(x, y) == scene.is_ignored(x, y));
    assert(raised.measured(x, y) == measured);
    assert(raised.width() == scene.width() && raised.height() == scene.height());
    if raised.is_ignored(x, y) || raised.is_shifted(x, y) {
        if raised.is_shifted(x, y) {
            lemma_band_is_above_nought(scene.metric, measured, higher);
        }
        lemma_exceeds_lower_threshold(nought, scene.threshold, higher);
    } else {
        lemma_exceeds_lower_threshold(measured, scene.threshold, higher);
        if scene.is_shifted(x, y) {
            lemma_within_half_more_of_higher_threshold(measured, scene.threshold, higher);
        }
    }
}

/// Raising the threshold never increases the number of differing pixels.
pub proof fn lemma_raising_threshold(scene: Scene, higher: Threshold)
    requires
        scene.threshold@.at_most(higher@),
    ensures
        scene.with_threshold(higher).differing() <= scene.differing(),
{
    let raised = scene.with_threshold(higher);
    assert forall|x: int, y: int| raised.has(x, y) && raised.is_different(x, y) implies scene.is_different(
        x,
        y,
    ) by {
        lemma_lower_threshold_keeps_difference(scene, higher, x, y);
    }
    lemma_counts_follow_positions(raised, scene);
}

/// Rectangles that cover every position at which the images differ when
/// no rectangle is ignored leave no differing pixel, under a threshold
/// that is not negative.
pub proof fn lemma_regions_suppress(scene: Scene, regions: Seq<Region>)
    requires
        !scene.threshold@.below(Quantity::zero()),
        forall|x: int, y: int|
            scene.has(x, y) && #[trigger] scene.with_regions(Seq::empty()).is_different(x, y)
                ==> covered(regions, x, y),
    ensures
        scene.with_regions(regions).differing() == 0,
{
    let bare = scene.with_regions(Seq::empty());
    let filtered = scene.with_regions(regions);
    assert forall|x: int, y: int| filtered.has(x, y) implies !filtered.is_different(x, y) by {
        if covered(regions, x, y) {
            lemma_ignored_position_matches(filtered, x, y);
        } else {
            assert(!covered(Seq::<Region>::empty(), x, y));
            assert(bare.has(x, y));
            assert(filtered.is_ignored(x, y) == bare.is_ignored(x, y));
            assert(filtered.distance(x, y) == bare.distance(x, y));
            assert(!bare.is_different(x, y));
        }
    }
    lemma_nothing_differs(filtered);
}

/// A mask that marks every position at which the images differ when
/// there is no mask leaves no differing pixel, under a threshold that is
/// not negative.
pub proof fn lemma_mask_suppresses(scene: Scene, mask: Image)
    requires
        !scene.threshold@.below(Quantity::zero()),
        forall|x: int, y: int|
            scene.has(x, y) && #[trigger] scene.with_mask(None).is_different(x, y) ==> masked(
                Some(mask),
                x,
                y,
            ),
    ensures
        scene.with_mask(Some(mask)).differing() == 0,
{
    let bare = scene.with_mask(None);
    let filtered = scene.with_mask(Some(mask));
    assert forall|x: int, y: int| filtered.has(x, y) implies !filtered.is_different(x, y) by {
        if masked(Some(mask), x, y) {
            assert(filtered.is_ignored(x, y));
            lemma_ignored_position_matches(filtered, x, y);
        } else {
            assert(bare.has(x, y));
            assert(filtered.is_ignored(x, y) == bare.is_ignored(x, y));
            assert(filtered.measured(x, y) == bare.measured(x, y));
            assert(filtered.is_shifted(x, y) == bare.is_shifted(x, y));
            assert(filtered.distance(x, y) == bare.distance(x, y));
            assert(!bare.is_different(x, y));
        }
    }
    lemma_nothing_differs(filtered);
}

/// A mask suppresses exactly as rectangles do: where a mask marks the
/// very positions of the canvas that a list of rectangles covers, the
/// comparison with the mask alone and the comparison with the rectangles
/// alone classify every position alike, count the same number of
/// differing pixels and paint the same overlay.
pub proof fn lemma_mask_acts_as_regions(scene: Scene, mask: Image, regions: Seq<Region>)
    requires
        forall|x: int, y: int|
            scene.has(x, y) ==> (masked(Some(mask), x, y) <==> covered(regions, x, y)),
    ensures
        forall|x: int, y: int|
            scene.has(x, y) ==> (#[trigger] scene.with_regions(Seq::empty()).with_mask(
                Some(mask),
            ).is_different(x, y) <==> scene.with_regions(regions).with_mask(None).is_different(
                x,
                y,
            )),
        forall|x: int, y: int|
            scene.has(x, y) ==> #[trigger] scene.with_regions(Seq::empty()).with_mask(
                Some(mask),
            ).overlay_pixel(x, y) == scene.with_regions(regions).with_mask(None).overlay_pixel(
                x,
                y,
            ),
        scene.with_regions(Seq::empty()).with_mask(Some(mask)).differing() == scene.with_regions(
            regions,
        ).with_mask(None).differing(),
{
    let by_mask = scene.with_regions(Seq::empty()).with_mask(Some(mask));
    let by_regions = scene.with_regions(regions).with_mask(None);
    assert forall|x: int, y: int| scene.has(x, y) implies (by_mask.is_ignored(x, y)
        <==> by_regions.is_ignored(x, y)) && by_mask.distance(x, y) == by_regions.distance(x, y)
        && (by_mask.is_different(x, y) <==> by_regions.is_different(x, y))
        && by_mask.overlay_pixel(x, y) == by_regions.overlay_pixel(x, y) by {
        assert(!covered(Seq::<Region>::empty(), x, y));
        assert(by_mask.is_ignored(x, y) == masked(Some(mask), x, y));
        assert(by_regions.is_ignored(x, y) == covered(regions, x, y));
        assert(by_mask.measured(x, y) == by_regions.measured(x, y));
        assert(by_mask.is_shifted(x, y) == by_regions.is_shifted(x, y));
    }
    lemma_counts_follow_positions(by_mask, by_regions);
    lemma_counts_follow_positions(by_regions, by_mask);
}

/// A borderline pixel that is close to a neighbour in the baseline
/// counts as matching.
pub proof fn lemma_shifted_pixel_matches(scene: Scene, x: int, y: int)
    requires
        scene.is_borderline(x, y),
        has_close_neighbour(scene.metric, x, y, scene.width(), scene.height(), scene.a, scene.b),
    ensures
        !scene.is_different(x, y),
{
    lemma_band_is_above_nought(scene.metric, scene.measured(x, y), scene.threshold);
}

/// A borderline pixel that is close to no neighbour in the baseline, at
/// a position that is not ignored, counts as different.
pub proof fn lemma_unshifted_pixel_differs(scene: Scene, x: int, y: int)
    requires
        !scene.is_ignored(x, y),
        scene.is_borderline(x, y),
        !has_close_neighbour(scene.metric, x, y, scene.width(), scene.height(), scene.a, scene.b),
    ensures
        scene.is_different(x, y),
{
}

/// Outside the borderline band the threshold alone decides at a position
/// that is not ignored.
pub proof fn lemma_clear_pixel_is_decided_directly(scene: Scene, x: int, y: int)
    requires
        !scene.is_ignored(x, y),
        !scene.is_borderline(x, y),
    ensures
        scene.is_different(x, y) == scene.measured(x, y).exceeds(scene.threshold),
{
}

} // verus!
