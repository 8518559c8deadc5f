//! Checks of JPEG files.

use image::codecs::jpeg::JpegDecoder;
use image::ImageDecoder;
use std::io::Cursor;
use vstd::prelude::*;
use vstd::string::*;

verus! {

/// Why an image is not accepted.
#[derive(Debug, PartialEq, Eq)]
pub enum ImageValidationError {
    /// The content is not an image of the expected format.
    InvalidImage(String),
    /// The image is wider or higher than allowed.
    ExceedsMaxDimensions,
}

impl ImageValidationError {
    /// An invalid image, described by `text`.
    pub open spec fn is_invalid(self, text: Seq<char>) -> bool {
        self matches ImageValidationError::InvalidImage(s) && s@ == text
    }
}

/// The content begins with the start-of-image marker.
pub open spec fn has_jpg_magic(contents: Seq<u8>) -> bool {
    contents.len() >= 2 && contents[0] == 0xff && contents[1] == 0xd8
}

/// Checks for the magic bytes of a JPEG header.
pub fn check_jpg_header(contents: &[u8]) -> (res: Result<(), ImageValidationError>)
    ensures
        res is Ok <==> has_jpg_magic(contents@),
        res matches Err(e) ==> e.is_invalid("Failed to parse JPEG file, invalid magic bytes"@),
{
    if contents.len() < 2 || contents[0] != 0xff || contents[1] != 0xd8 {
        return Err(
            ImageValidationError::InvalidImage(
                "Failed to parse JPEG file, invalid magic bytes".to_string(),
            ),
        );
    }
    Ok(())
}

/// Size of the segment whose size field is at `pos`, most significant byte first.
/// The field itself counts towards it.
pub open spec fn segment_size(contents: Seq<u8>, pos: int) -> int {
    contents[pos] * 256 + contents[pos + 1]
}

/// A start-of-scan marker is at `pos`.
pub open spec fn is_sos(contents: Seq<u8>, pos: int) -> bool {
    contents[pos] == 0xff && contents[pos + 1] == 0xda
}

/// An end-of-image marker is at `pos`.
pub open spec fn is_eoi(contents: Seq<u8>, pos: int) -> bool {
    0 <= pos && pos + 2 <= contents.len() && contents[pos] == 0xff && contents[pos + 1] == 0xd9
}

/// Where the segment after the one at `pos` begins.
pub open spec fn next_segment(contents: Seq<u8>, pos: int) -> int {
    pos + 2 + segment_size(contents, pos + 2)
}

/// Where the search for the end of the image begins: behind the first start-of-scan
/// segment of the segments that follow one another from `pos`, or at the first
/// position with no whole segment header and a byte more behind it.
pub open spec fn scan_start(contents: Seq<u8>, pos: int) -> int
    decreases
            (if pos < contents.len() {
                contents.len() - pos
            } else {
                0
            }),
{
    if pos + 4 >= contents.len() {
        pos
    } else if is_sos(contents, pos) {
        next_segment(contents, pos)
    } else {
        scan_start(contents, next_segment(contents, pos))
    }
}

/// The first end-of-image marker at or after `start` is at `pos`.
pub open spec fn is_first_eoi(contents: Seq<u8>, start: int, pos: int) -> bool {
    &&& start <= pos
    &&& is_eoi(contents, pos)
    &&& forall|i: int| start <= i < pos ==> !#[trigger] is_eoi(contents, i)
}

/// Where the image ends: the position of the first end-of-image marker from where
/// the search begins, if there is one.
pub open spec fn end_of_image(contents: Seq<u8>) -> Option<int> {
    if exists|pos: int| is_first_eoi(contents, scan_start(contents, 2), pos) {
        Some(choose|pos: int| is_first_eoi(contents, scan_start(contents, 2), pos))
    } else {
        None
    }
}

/// Digits of a number below ten.
pub open spec fn digit(n: nat) -> Seq<char> {
    seq![('0' as nat + n) as char]
}

/// Writes a length that is too short for an image.
fn short_length(n: usize) -> (text: &'static str)
    requires
        n < 4,
    ensures
        text@ == digit(n as nat),
{
    proof {
        reveal_strlit("0");
        reveal_strlit("1");
        reveal_strlit("2");
        reveal_strlit("3");
    }
    if n == 0 {
        "0"
    } else if n == 1 {
        "1"
    } else if n == 2 {
        "2"
    } else {
        "3"
    }
}

/// Finds where the image ends.
pub fn find_end_of_image(contents: &Vec<u8>) -> (end: Option<usize>)
    ensures
        match end_of_image(contents@) {
            Some(pos) => end matches Some(found) && found == pos,
            None => end is None,
        },
{
    let len: usize = contents.len();
    if len < 4 {
        proof {
            lemma_scan_start_bound(contents@, 2);
        }
        return None;
    }
    let ghost start = scan_start(contents@, 2);
    let mut pos: usize = 2;
    let mut in_header: bool = true;
    while in_header && pos < len && len - pos > 4
        invariant
            len == contents@.len(),
            in_header ==> scan_start(contents@, pos as int) == start || (pos == usize::MAX && start
                >= usize::MAX),
            !in_header ==> pos == start || (pos == usize::MAX && start >= usize::MAX),
        decreases
                (if in_header {
                    1nat
                } else {
                    0
                }),
                (if pos < len {
                    len - pos
                } else {
                    0
                }),
    {
        proof {
            lemma_scan_start_bound(contents@, next_segment(contents@, pos as int));
        }
        in_header = !(contents[pos] == 0xff && contents[pos + 1] == 0xda);
        let size: usize = contents[pos + 2] as usize * 256 + contents[pos + 3] as usize;
        // the size field counts towards the size
        pos = (pos + 2).saturating_add(size);
    }
    let mut i: usize = pos;
    while i <= len - 2
        invariant
            4 <= len == contents@.len(),
            start == scan_start(contents@, 2),
            pos == start || (pos == usize::MAX && start >= usize::MAX),
            pos <= i,
            forall|j: int| pos <= j < i ==> !#[trigger] is_eoi(contents@, j),
        decreases len - i,
    {
        if contents[i] == 0xff && contents[i + 1] == 0xd9 {
            proof {
                lemma_end_of_image(contents@, i as int);
            }
            return Some(i);
        }
        i = i + 1;
    }
    None
}

/// Checks whether bytes follow the end of the image, as they do where a larger image
/// was overwritten by its cropped copy.
pub fn has_trailer(contents: &Vec<u8>) -> (res: Result<bool, ImageValidationError>)
    ensures
        contents@.len() < 4 ==> {
            &&& res matches Err(e)
            &&& e.is_invalid(
                "JPEG file is too short to be valid, got "@ + digit(contents@.len()) + " bytes"@,
            )
        },
        contents@.len() >= 4 ==> match end_of_image(contents@) {
            Some(pos) => res == Ok::<bool, ImageValidationError>(pos + 2 < contents@.len()),
            None => {
                &&& res matches Err(e)
                &&& e.is_invalid("End of image magic bytes not found in JPEG"@)
            },
        },
{
    let len: usize = contents.len();
    if len < 4 {
        let mut text: String = "JPEG file is too short to be valid, got ".to_string();
        text.append(short_length(len));
        text.append(" bytes");
        return Err(ImageValidationError::InvalidImage(text));
    }
    match find_end_of_image(contents) {
        Some(pos) => {
            assert(is_first_eoi(contents@, scan_start(contents@, 2), pos as int));
            Ok(pos + 2 < len)
        },
        None => Err(
            ImageValidationError::InvalidImage(
                "End of image magic bytes not found in JPEG".to_string(),
            ),
        ),
    }
}

/// The first end-of-image marker is where the image ends.
pub proof fn lemma_end_of_image(contents: Seq<u8>, pos: int)
    requires
        is_first_eoi(contents, scan_start(contents, 2), pos),
    ensures
        end_of_image(contents) == Some(pos),
{
    let found = choose|pos: int| is_first_eoi(contents, scan_start(contents, 2), pos);
    if found < pos {
        assert(is_eoi(contents, found));
    } else if pos < found {
        assert(is_eoi(contents, pos));
    }
}

/// The search does not begin before the segments do.
pub proof fn lemma_scan_start_bound(contents: Seq<u8>, pos: int)
    ensures
        scan_start(contents, pos) >= pos,
    decreases
            (if pos < contents.len() {
                contents.len() - pos
            } else {
                0
            }),
{
    if pos + 4 < contents.len() && !is_sos(contents, pos) {
        lemma_scan_start_bound(contents, next_segment(contents, pos));
    }
}

/// Resource limits of decoding. What is absent is not limited.
#[derive(Clone, Copy, Debug)]
pub struct Limits {
    pub max_image_width: Option<u32>,
    pub max_image_height: Option<u32>,
    pub max_alloc: Option<u64>,
}

impl Limits {
    /// An image of this width and height is within the limits.
    pub open spec fn allow(self, width: u32, height: u32) -> bool {
        &&& self.max_image_width matches Some(max) ==> width <= max
        &&& self.max_image_height matches Some(max) ==> height <= max
    }
}

/// Length of the longest file whose header may be read. Behind the two magic bytes the
/// decoder counts the bytes it reads between two markers in an `i32`, which has room for
/// that many and not for one more.
pub const MAX_CONTENTS_LEN: usize = 0x8000_0001;

/// What `image::codecs::jpeg::JpegDecoder::new` makes of a file's bytes: the width
/// and height of the decoder it returns, or the debug text of its error.
pub uninterp spec fn jpeg_header(contents: Seq<u8>) -> Result<(u32, u32), Seq<char>>;

/// Reads the header of a JPEG file with `image::codecs::jpeg::JpegDecoder::new` and
/// applies `limits` with the decoder's `set_limits`. The decoder does not outlive the
/// two calls.
///
/// An error is the debug text of the first call's. Otherwise the result says whether
/// the second call accepted the limits, which it does if and only if neither side of
/// the image exceeds its limit; `max_alloc` is stored and not looked at.
///
/// A file longer than `MAX_CONTENTS_LEN` is left out. The decoder's count of the bytes
/// between two markers can overflow on it, and a build that checks for overflow panics
/// there. In any other file that count stays in range, and so does the decoder's `u32`
/// sum of the lengths of metadata segments, which is less than the length of the file.
#[verifier::external_body]
fn read_header_within(contents: &[u8], limits: &Limits) -> (res: Result<bool, String>)
    requires
        contents@.len() <= MAX_CONTENTS_LEN,
    ensures
        match jpeg_header(contents@) {
            Ok((width, height)) => res == Ok::<bool, String>(limits.allow(width, height)),
            Err(text) => res matches Err(e) && e@ == text,
        },
{
    let mut outer = image::Limits::no_limits();
    outer.max_image_width = limits.max_image_width;
    outer.max_image_height = limits.max_image_height;
    outer.max_alloc = limits.max_alloc;
    match JpegDecoder::new(Cursor::new(contents)) {
        Ok(mut decoder) => Ok(decoder.set_limits(outer).is_ok()),
        Err(err) => Err(format!("{err:?}")),
    }
}

/// The verdict on a file whose header could be read, within the limits or not, or
/// could not be read for the given reason.
pub fn decoding_verdict(filename: &str, header: Result<bool, String>) -> (res: Result<
    (),
    ImageValidationError,
>)
    ensures
        match header {
            Ok(true) => res is Ok,
            Ok(false) => res == Err::<(), ImageValidationError>(
                ImageValidationError::ExceedsMaxDimensions,
            ),
            Err(reason) => {
                &&& res matches Err(e)
                &&& e.is_invalid("Failed to parse "@ + filename@ + " as JPG: "@ + reason@)
            },
        },
{
    match header {
        Err(reason) => {
            let mut text: String = "Failed to parse ".to_string();
            text.append(filename);
            text.append(" as JPG: ");
            text.append(reason.as_str());
            Err(ImageValidationError::InvalidImage(text))
        },
        Ok(within) => {
            if within {
                Ok(())
            } else {
                Err(ImageValidationError::ExceedsMaxDimensions)
            }
        },
    }
}

/// Checks that a file decodes as a JPEG image within the limits, as far as its header
/// tells.
pub fn validate_decoding(filename: &str, contents: &[u8], limits: Limits) -> (res: Result<
    (),
    ImageValidationError,
>)
    requires
        contents@.len() <= MAX_CONTENTS_LEN,
    ensures
        match jpeg_header(contents@) {
            Ok((width, height)) => {
                if limits.allow(width, height) {
                    res is Ok
                } else {
                    res == Err::<(), ImageValidationError>(
                        ImageValidationError::ExceedsMaxDimensions,
                    )
                }
            },
            Err(reason) => {
                &&& res matches Err(e)
                &&& e.is_invalid("Failed to parse "@ + filename@ + " as JPG: "@ + reason)
            },
        },
{
    decoding_verdict(filename, read_header_within(contents, &limits))
}

} // verus!
