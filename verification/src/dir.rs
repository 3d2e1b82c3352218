//! Comparing two trees of images, file by file.
//!
//! The files to compare are those of the first tree. Walking the trees
//! and decoding the files is left to the caller; what is decided here
//! is which files count as images, what becomes of each file, and how
//! many of the outcomes count as a difference.

use vstd::prelude::*;
use vstd::slice::slice_index_get;
use vstd::string::StringSliceAdditionalSpecFns;
use crate::compare::{canvas_fits, compare_images_with, DiffResult, Scene};
use crate::metric::Metric;
use crate::quantity::Threshold;
use crate::raster::Image;
use crate::region::Region;

verus! {

/// What became of one file of the first tree.
pub enum DirDiffStatus {
    /// Both files were read and compared.
    Match(DiffResult),
    /// The second tree has no file at the same relative path.
    MissingInB,
    /// A file could not be read as an image; the text says why.
    Error(String),
}

/// One file of the first tree and what became of it.
pub struct DirDiffItem {
    /// Where the file lies below the root of its tree.
    pub relative_path: String,
    /// What became of it.
    pub status: DirDiffStatus,
}

/// What the caller found for one file of the first tree.
pub enum Counterpart {
    /// The second tree has no file at the same relative path.
    Missing,
    /// One of the files, or the mask, could not be read as an image.
    Unreadable(String),
    /// Both files were read, and the mask where there is one.
    Loaded { a: Image, b: Image, mask: Option<Image> },
}

/// A byte with a capital letter of the basic Latin alphabet turned into
/// its small letter.
pub open spec fn lowered(byte: u8) -> u8 {
    if 65 <= byte <= 90 {
        (byte + 32) as u8
    } else {
        byte
    }
}

/// Whether `text` spells `word`, capitals counting as small letters.
pub open spec fn spells(text: Seq<u8>, word: Seq<u8>) -> bool {
    &&& text.len() == word.len()
    &&& forall|index: int| 0 <= index < text.len() ==> lowered(#[trigger] text[index]) == word[index]
}

/// The file name extensions that mark an image: `png`, `jpg`, `jpeg`,
/// `webp` and `bmp`.
pub open spec fn image_extensions() -> Seq<Seq<u8>> {
    seq![
        seq![112u8, 110u8, 103u8],
        seq![106u8, 112u8, 103u8],
        seq![106u8, 112u8, 101u8, 103u8],
        seq![119u8, 101u8, 98u8, 112u8],
        seq![98u8, 109u8, 112u8],
    ]
}

/// Whether a file name extension, given as its bytes, marks an image.
pub open spec fn is_image_extension(extension: Seq<u8>) -> bool {
    exists|index: int|
        0 <= index < image_extensions().len() && spells(
            extension,
            #[trigger] image_extensions()[index],
        )
}

/// Whether `text` spells `word`, capitals counting as small letters.
fn spells_word(text: &[u8], word: &[u8]) -> (same: bool)
    ensures
        same == spells(text@, word@),
{
    if text.len() != word.len() {
        return false;
    }
    let mut index: usize = 0;
    while index < text.len()
        invariant
            index <= text@.len(),
            text@.len() == word@.len(),
            forall|earlier: int|
                0 <= earlier < index ==> lowered(#[trigger] text@[earlier]) == word@[earlier],
        decreases text@.len() - index,
    {
        let byte = *slice_index_get(text, index);
        let small: u8 = if 65 <= byte && byte <= 90 {
            byte + 32
        } else {
            byte
        };
        if small != *slice_index_get(word, index) {
            return false;
        }
        index = index + 1;
    }
    true
}

/// Whether a file with the given name extension is taken for an image.
/// The extension comes without its dot; capitals count as small letters.
pub fn is_image(extension: &str) -> (image: bool)
    ensures
        image == is_image_extension(extension.spec_bytes()),
{
    let bytes = extension.as_bytes();
    let png: [u8; 3] = [112, 110, 103];
    let jpg: [u8; 3] = [106, 112, 103];
    let jpeg: [u8; 4] = [106, 112, 101, 103];
    let webp: [u8; 4] = [119, 101, 98, 112];
    let bmp: [u8; 3] = [98, 109, 112];
    proof {
        let known = image_extensions();
        assert(known[0] =~= png@);
        assert(known[1] =~= jpg@);
        assert(known[2] =~= jpeg@);
        assert(known[3] =~= webp@);
        assert(known[4] =~= bmp@);
    }
    spells_word(bytes, png.as_slice()) || spells_word(bytes, jpg.as_slice()) || spells_word(
        bytes,
        jpeg.as_slice(),
    ) || spells_word(bytes, webp.as_slice()) || spells_word(bytes, bmp.as_slice())
}

impl DirDiffStatus {
    /// Whether this outcome counts as a difference between the trees:
    /// a file that is missing, or a pair of images that differ somewhere.
    /// A file that could not be read counts as none.
    pub open spec fn counts_as_difference(&self) -> bool {
        match self {
            DirDiffStatus::Match(result) => result.diff_pixels > 0,
            DirDiffStatus::MissingInB => true,
            DirDiffStatus::Error(_) => false,
        }
    }

    /// Whether this outcome counts as a difference between the trees.
    pub fn is_difference(&self) -> (counts: bool)
        ensures
            counts == self.counts_as_difference(),
    {
        match self {
            DirDiffStatus::Match(result) => result.diff_pixels > 0,
            DirDiffStatus::MissingInB => true,
            DirDiffStatus::Error(_) => false,
        }
    }
}

/// The number of outcomes in a list that count as a difference.
pub open spec fn differences_among(items: Seq<DirDiffItem>) -> nat
    decreases items.len(),
{
    if items.len() == 0 {
        0
    } else {
        let before = differences_among(items.drop_last());
        if items.last().status.counts_as_difference() {
            before + 1
        } else {
            before
        }
    }
}

/// Counts the outcomes that count as a difference between the trees.
pub fn count_differences(items: &[DirDiffItem]) -> (count: usize)
    ensures
        count == differences_among(items@),
{
    let mut count: usize = 0;
    let mut index: usize = 0;
    proof {
        assert(items@.take(0) =~= Seq::<DirDiffItem>::empty());
    }
    while index < items.len()
        invariant
            index <= items@.len(),
            count == differences_among(items@.take(index as int)),
            count <= index,
        decreases items@.len() - index,
    {
        proof {
            assert(items@.take(index + 1).drop_last() =~= items@.take(index as int));
        }
        if slice_index_get(items, index).status.is_difference() {
            count = count + 1;
        }
        index = index + 1;
    }
    proof {
        assert(items@.take(items@.len() as int) =~= items@);
    }
    count
}

/// Decides what becomes of one file of the first tree.
///
/// A file without a counterpart is reported as missing and a file that
/// could not be read as an error, with the reason given. A pair that
/// was read is compared, always without an overlay; its images must fit
/// the canvas, as for any comparison.
pub fn compare_entry(
    relative_path: String,
    found: Counterpart,
    metric: Metric,
    threshold: Threshold,
    ignore_regions: &[Region],
) -> (item: DirDiffItem)
    requires
        found matches Counterpart::Loaded { a, b, mask } ==> canvas_fits(a, b),
    ensures
        item.relative_path == relative_path,
        match found {
            Counterpart::Missing => item.status is MissingInB,
            Counterpart::Unreadable(reason) => item.status == DirDiffStatus::Error(reason),
            Counterpart::Loaded { a, b, mask } => {
                &&& item.status is Match
                &&& item.status->Match_0.describes(
                    Scene { a, b, metric, threshold, regions: ignore_regions@, mask },
                    false,
                )
            },
        },
{
    let status = match found {
        Counterpart::Missing => DirDiffStatus::MissingInB,
        Counterpart::Unreadable(reason) => DirDiffStatus::Error(reason),
        Counterpart::Loaded { a, b, mask } => {
            let result = compare_images_with(
                metric,
                &a,
                &b,
                threshold,
                false,
                ignore_regions,
                mask.as_ref(),
            );
            DirDiffStatus::Match(result)
        },
    };
    DirDiffItem { relative_path, status }
}

} // verus!
