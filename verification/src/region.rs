//! Axis-aligned ignore rectangles, and their textual form `x,y,width,height`.

use vstd::prelude::*;
use vstd::slice::slice_index_get;
use vstd::string::StringSliceAdditionalSpecFns;

verus! {

/// An axis-aligned rectangle of pixel coordinates, anchored at its
/// top-left corner. A rectangle whose width or height is zero covers
/// no pixel at all.
#[derive(Clone, Copy, Debug, PartialEq, Eq, Structural)]
pub struct Region {
    pub x: u32,
    pub y: u32,
    pub width: u32,
    pub height: u32,
}

/// Why a text is no rectangle.
#[derive(Clone, Copy, Debug, PartialEq, Eq, Structural)]
pub enum RegionError {
    /// A part between two commas is empty.
    Empty,
    /// A part holds something that is no decimal digit.
    InvalidDigit,
    /// A part is a number too large for 32 bits.
    Overflow,
    /// All parts are numbers, but there are not exactly four of them.
    WrongArity,
}

/// The byte of a comma.
pub const COMMA: u8 = 44;

/// The byte of a plus sign.
pub const PLUS: u8 = 43;

/// The byte of a minus sign.
pub const MINUS: u8 = 45;

/// The byte of the digit zero.
pub const ZERO: u8 = 48;

/// Whether a byte is a decimal digit.
pub open spec fn is_digit(byte: u8) -> bool {
    ZERO <= byte <= ZERO + 9
}

/// Whether a text is made of decimal digits only.
pub open spec fn all_digits(text: Seq<u8>) -> bool {
    forall|index: int| 0 <= index < text.len() ==> is_digit(#[trigger] text[index])
}

/// The number that a run of decimal digits denotes.
pub open spec fn decimal_value(digits: Seq<u8>) -> nat
    decreases digits.len(),
{
    if digits.len() == 0 {
        0
    } else {
        10 * decimal_value(digits.drop_last()) + (digits.last() - ZERO) as nat
    }
}

/// Whether the first `length` bytes of a text are digits that already
/// denote a number too large for 32 bits.
pub open spec fn overflows_at(text: Seq<u8>, length: int) -> bool {
    &&& 0 <= length <= text.len()
    &&& all_digits(text.take(length))
    &&& decimal_value(text.take(length)) > u32::MAX
}

/// The number that a text without a sign denotes. Read from the left,
/// the first thing that goes wrong decides the error: digits that outgrow
/// 32 bits, or a byte that is no digit.
pub open spec fn unsigned_of(text: Seq<u8>) -> Result<u32, RegionError> {
    if exists|length: int| overflows_at(text, length) {
        Err(RegionError::Overflow)
    } else if !all_digits(text) {
        Err(RegionError::InvalidDigit)
    } else {
        Ok(decimal_value(text) as u32)
    }
}

/// The number that one part of the text denotes: decimal digits, with a
/// plus sign in front of them or none. A sign alone is no number.
pub open spec fn number_of(part: Seq<u8>) -> Result<u32, RegionError> {
    if part.len() == 0 {
        Err(RegionError::Empty)
    } else if part.len() == 1 && (part[0] == PLUS || part[0] == MINUS) {
        Err(RegionError::InvalidDigit)
    } else if part[0] == PLUS {
        unsigned_of(part.skip(1))
    } else {
        unsigned_of(part)
    }
}

/// The parts of a text between its commas. The text is read byte by byte:
/// a comma opens a new part, any other byte joins the last part. A text
/// without a comma is one part, and so is the empty text.
pub open spec fn parts_of(text: Seq<u8>) -> Seq<Seq<u8>>
    decreases text.len(),
{
    if text.len() == 0 {
        seq![Seq::<u8>::empty()]
    } else {
        let before = parts_of(text.drop_last());
        if text.last() == COMMA {
            before.push(Seq::<u8>::empty())
        } else {
            before.drop_last().push(before.last().push(text.last()))
        }
    }
}

/// Whether the part at `index` is the first one that is no number.
pub open spec fn is_first_failure(parts: Seq<Seq<u8>>, index: int) -> bool {
    &&& 0 <= index < parts.len()
    &&& number_of(parts[index]) is Err
    &&& forall|earlier: int| 0 <= earlier < index ==> (#[trigger] number_of(parts[earlier])) is Ok
}

/// The rectangle that a text denotes: four numbers between three commas,
/// which are x, y, width and height. Where some part is no number, the
/// error is that of the first such part, however many parts there are.
pub open spec fn region_of(text: Seq<u8>) -> Result<Region, RegionError> {
    let parts = parts_of(text);
    if exists|index: int| is_first_failure(parts, index) {
        let index = choose|index: int| is_first_failure(parts, index);
        Err(number_of(parts[index])->Err_0)
    } else if parts.len() != 4 {
        Err(RegionError::WrongArity)
    } else {
        Ok(
            Region {
                x: number_of(parts[0])->Ok_0,
                y: number_of(parts[1])->Ok_0,
                width: number_of(parts[2])->Ok_0,
                height: number_of(parts[3])->Ok_0,
            },
        )
    }
}

/// A rectangle without width or without height covers no position.
pub proof fn lemma_empty_region_covers_nothing(region: Region, x: int, y: int)
    requires
        region.width == 0 || region.height == 0,
    ensures
        !region.covers(x, y),
{
}

/// There is at most one first part that is no number.
pub proof fn lemma_first_failure_is_unique(parts: Seq<Seq<u8>>, first: int, second: int)
    requires
        is_first_failure(parts, first),
        is_first_failure(parts, second),
    ensures
        first == second,
{
    if first < second {
        assert(number_of(parts[first]) is Ok);
    } else if second < first {
        assert(number_of(parts[second]) is Ok);
    }
}

/// Reads the digits of `bytes` between `start` and `end`.
fn parse_unsigned(bytes: &[u8], start: usize, end: usize) -> (number: Result<u32, RegionError>)
    requires
        start <= end <= bytes@.len(),
    ensures
        number == unsigned_of(bytes@.subrange(start as int, end as int)),
{
    let ghost text = bytes@.subrange(start as int, end as int);
    let mut value: u32 = 0;
    let mut index: usize = start;
    proof {
        assert(text.take(0) =~= Seq::<u8>::empty());
    }
    while index < end
        invariant
            start <= index <= end <= bytes@.len(),
            text == bytes@.subrange(start as int, end as int),
            all_digits(text.take(index - start)),
            value == decimal_value(text.take(index - start)),
            forall|length: int| 0 <= length <= index - start ==> !overflows_at(text, length),
        decreases end - index,
    {
        let byte = *slice_index_get(bytes, index);
        let ghost seen = index - start;
        proof {
            assert(text[seen] == byte);
            assert(text.take(seen + 1).drop_last() =~= text.take(seen));
            assert(text.take(seen + 1).last() == byte);
        }
        if byte < ZERO || byte > ZERO + 9 {
            proof {
                assert forall|length: int| !overflows_at(text, length) by {
                    if seen < length <= text.len() {
                        assert(text.take(length)[seen] == byte);
                    }
                }
                assert(!all_digits(text));
            }
            return Err(RegionError::InvalidDigit);
        }
        proof {
            assert forall|place: int| 0 <= place < seen + 1 implies is_digit(
                #[trigger] text.take(seen + 1)[place],
            ) by {
                if place < seen {
                    assert(text.take(seen + 1)[place] == text.take(seen)[place]);
                }
            }
        }
        let digit: u64 = (byte - ZERO) as u64;
        let next: u64 = 10 * (value as u64) + digit;
        if next > u32::MAX as u64 {
            proof {
                assert(overflows_at(text, seen + 1));
            }
            return Err(RegionError::Overflow);
        }
        value = next as u32;
        index = index + 1;
    }
    proof {
        assert(text.take(text.len() as int) =~= text);
    }
    Ok(value)
}

/// Reads the part of `bytes` between `start` and `end` as a number.
fn parse_number(bytes: &[u8], start: usize, end: usize) -> (number: Result<u32, RegionError>)
    requires
        start <= end <= bytes@.len(),
    ensures
        number == number_of(bytes@.subrange(start as int, end as int)),
{
    let ghost part = bytes@.subrange(start as int, end as int);
    if start == end {
        return Err(RegionError::Empty);
    }
    let first = *slice_index_get(bytes, start);
    assert(part[0] == first);
    if end - start == 1 && (first == PLUS || first == MINUS) {
        return Err(RegionError::InvalidDigit);
    }
    if first == PLUS {
        proof {
            assert(part.skip(1) =~= bytes@.subrange(start + 1, end as int));
        }
        parse_unsigned(bytes, start + 1, end)
    } else {
        parse_unsigned(bytes, start, end)
    }
}

/// Finds the parts of `bytes` between its commas, each as the place
/// where it starts and the place where it ends.
fn split_parts(bytes: &[u8]) -> (bounds: Vec<(usize, usize)>)
    ensures
        bounds@.len() == parts_of(bytes@).len(),
        forall|index: int|
            0 <= index < bounds@.len() ==> {
                &&& (#[trigger] bounds@[index]).0 <= bounds@[index].1 <= bytes@.len()
                &&& bytes@.subrange(bounds@[index].0 as int, bounds@[index].1 as int) == parts_of(
                    bytes@,
                )[index]
            },
{
    let mut bounds: Vec<(usize, usize)> = Vec::new();
    let mut start: usize = 0;
    let mut index: usize = 0;
    proof {
        assert(bytes@.take(0) =~= Seq::<u8>::empty());
        assert(bytes@.subrange(0, 0) =~= Seq::<u8>::empty());
    }
    while index < bytes.len()
        invariant
            start <= index <= bytes@.len(),
            parts_of(bytes@.take(index as int)).len() == bounds@.len() + 1,
            parts_of(bytes@.take(index as int)).last() == bytes@.subrange(
                start as int,
                index as int,
            ),
            forall|place: int|
                0 <= place < bounds@.len() ==> {
                    &&& (#[trigger] bounds@[place]).0 <= bounds@[place].1 <= bytes@.len()
                    &&& bytes@.subrange(bounds@[place].0 as int, bounds@[place].1 as int)
                        == parts_of(bytes@.take(index as int))[place]
                },
        decreases bytes@.len() - index,
    {
        let byte = *slice_index_get(bytes, index);
        proof {
            let longer = bytes@.take(index + 1);
            assert(longer.drop_last() =~= bytes@.take(index as int));
            assert(longer.last() == byte);
        }
        if byte == COMMA {
            bounds.push((start, index));
            start = index + 1;
            proof {
                assert(bytes@.subrange(start as int, start as int) =~= Seq::<u8>::empty());
            }
        } else {
            proof {
                assert(bytes@.subrange(start as int, index as int).push(byte) =~= bytes@.subrange(
                    start as int,
                    index + 1,
                ));
            }
        }
        index = index + 1;
    }
    proof {
        assert(bytes@.take(bytes@.len() as int) =~= bytes@);
    }
    bounds.push((start, index));
    bounds
}

impl Region {
    /// The set of coordinates the rectangle covers: both intervals are
    /// half-open, so the right and bottom edges lie outside.
    pub open spec fn covers(&self, x: int, y: int) -> bool {
        &&& self.x <= x < self.x + self.width
        &&& self.y <= y < self.y + self.height
    }

    /// Whether the pixel at `(x, y)` lies inside the rectangle.
    pub fn contains(&self, x: u32, y: u32) -> (inside: bool)
        ensures
            inside == self.covers(x as int, y as int),
    {
        x >= self.x && x - self.x < self.width && y >= self.y && y - self.y < self.height
    }

    /// Reads a rectangle from its textual form `x,y,width,height`.
    pub fn parse(text: &str) -> (region: Result<Region, RegionError>)
        ensures
            region == region_of(text.spec_bytes()),
    {
        let bytes = text.as_bytes();
        let bounds = split_parts(bytes);
        let ghost parts = parts_of(bytes@);
        let mut numbers: Vec<u32> = Vec::new();
        let mut index: usize = 0;
        while index < bounds.len()
            invariant
                index <= bounds@.len(),
                bytes@ == text.spec_bytes(),
                parts == parts_of(bytes@),
                bounds@.len() == parts.len(),
                forall|place: int|
                    0 <= place < bounds@.len() ==> {
                        &&& (#[trigger] bounds@[place]).0 <= bounds@[place].1 <= bytes@.len()
                        &&& bytes@.subrange(bounds@[place].0 as int, bounds@[place].1 as int)
                            == parts[place]
                    },
                numbers@.len() == index,
                forall|place: int|
                    0 <= place < index ==> (#[trigger] number_of(parts[place])) == Ok::<
                        u32,
                        RegionError,
                    >(numbers@[place]),
            decreases bounds@.len() - index,
        {
            let (start, end) = bounds[index];
            match parse_number(bytes, start, end) {
                Ok(number) => {
                    numbers.push(number);
                },
                Err(error) => {
                    proof {
                        assert(is_first_failure(parts, index as int));
                        let chosen = choose|place: int| is_first_failure(parts, place);
                        lemma_first_failure_is_unique(parts, index as int, chosen);
                    }
                    return Err(error);
                },
            }
            index = index + 1;
        }
        proof {
            assert forall|place: int| !is_first_failure(parts, place) by {
                if 0 <= place < parts.len() {
                    assert(number_of(parts[place]) is Ok);
                }
            }
        }
        if numbers.len() != 4 {
            return Err(RegionError::WrongArity);
        }
        Ok(Region { x: numbers[0], y: numbers[1], width: numbers[2], height: numbers[3] })
    }
}

impl core::str::FromStr for Region {
    type Err = RegionError;

    /// Reads a rectangle from its textual form, as [`Region::parse`] does.
    fn from_str(text: &str) -> (region: Result<Region, RegionError>)
        ensures
            region == region_of(text.spec_bytes()),
    {
        Region::parse(text)
    }
}

} // verus!
