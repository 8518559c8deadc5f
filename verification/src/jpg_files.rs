//! What the image checks answer, in terms of the bytes of a file.

use crate::jpg;
use crate::jpg::{ImageValidationError, Limits};
use vstd::prelude::*;

verus! {

/// Only the first two bytes count towards the magic: a file is accepted exactly if they are
/// on their own, whatever follows them, and on their own they are exactly if they are
/// `ff d8`.
pub proof fn law_only_the_first_two_bytes_count(
    start: &[u8],
    more: Seq<u8>,
    file: &[u8],
    of_start: Result<(), ImageValidationError>,
    of_file: Result<(), ImageValidationError>,
)
    requires
        start@.len() == 2,
        file@ == start@ + more,
        call_ensures(jpg::check_jpg_header, (start,), of_start),
        call_ensures(jpg::check_jpg_header, (file,), of_file),
    ensures
        of_file is Ok <==> of_start is Ok,
        of_start is Ok <==> start@ == seq![0xffu8, 0xd8u8],
{
    assert(file@[0] == start@[0] && file@[1] == start@[1]);
    if of_start is Ok {
        assert(start@ =~= seq![0xffu8, 0xd8u8]);
    }
}

/// A file too short for the magic is not accepted.
pub proof fn law_magic_needs_two_bytes(file: &[u8], res: Result<(), ImageValidationError>)
    requires
        file@.len() < 2,
        call_ensures(jpg::check_jpg_header, (file,), res),
    ensures
        res is Err,
{
}

/// What is not accepted for its first bytes is called invalid, and why.
pub proof fn law_wrong_magic_is_invalid(file: &[u8], res: Result<(), ImageValidationError>)
    requires
        call_ensures(jpg::check_jpg_header, (file,), res),
    ensures
        res is Ok || {
            &&& res->Err_0 matches ImageValidationError::InvalidImage(text)
            &&& text@ == "Failed to parse JPEG file, invalid magic bytes"@
        },
{
}

/// A file whose header gives a width and a height is accepted exactly if neither exceeds
/// its own maximum, each whether or not there is one for the other; otherwise it exceeds
/// the dimensions.
pub proof fn law_each_side_has_its_own_limit(
    filename: &str,
    contents: &[u8],
    limits: Limits,
    width: u32,
    height: u32,
    res: Result<(), ImageValidationError>,
)
    requires
        jpg::jpeg_header(contents@) == Ok::<(u32, u32), Seq<char>>((width, height)),
        call_ensures(jpg::validate_decoding, (filename, contents, limits), res),
    ensures
        limits.max_image_width matches Some(max) && width > max ==> res is Err,
        limits.max_image_height matches Some(max) && height > max ==> res is Err,
        res is Err ==> {
            ||| limits.max_image_width matches Some(max) && width > max
            ||| limits.max_image_height matches Some(max) && height > max
        },
        res matches Err(e) ==> e is ExceedsMaxDimensions,
{
}

/// Both limits together accept exactly what each of them accepts alone, and how much may be
/// allocated has no part in it.
pub proof fn law_limits_act_separately(
    filename: &str,
    contents: &[u8],
    limits: Limits,
    max_alloc: Option<u64>,
    both: Result<(), ImageValidationError>,
    width_only: Result<(), ImageValidationError>,
    height_only: Result<(), ImageValidationError>,
)
    requires
        call_ensures(jpg::validate_decoding, (filename, contents, limits), both),
        call_ensures(
            jpg::validate_decoding,
            (filename, contents, (Limits { max_image_height: None, max_alloc, ..limits })),
            width_only,
        ),
        call_ensures(
            jpg::validate_decoding,
            (filename, contents, (Limits { max_image_width: None, max_alloc, ..limits })),
            height_only,
        ),
    ensures
        both is Ok <==> width_only is Ok && height_only is Ok,
{
}

/// A file whose header cannot be read is invalid under all limits, for the reason that
/// reading it gave.
pub proof fn law_unreadable_header_is_invalid(
    filename: &str,
    contents: &[u8],
    limits: Limits,
    reason: Seq<char>,
    res: Result<(), ImageValidationError>,
)
    requires
        jpg::jpeg_header(contents@) == Err::<(u32, u32), Seq<char>>(reason),
        call_ensures(jpg::validate_decoding, (filename, contents, limits), res),
    ensures
        res is Err,
        res->Err_0 matches ImageValidationError::InvalidImage(text) && text@ == "Failed to parse "@
            + filename@ + " as JPG: "@ + reason,
{
}

/// A header that was read is accepted or refused as its limits were, and one that was not
/// is invalid for the given reason.
pub proof fn law_verdict_follows_the_header(
    filename: &str,
    header: Result<bool, String>,
    res: Result<(), ImageValidationError>,
)
    requires
        call_ensures(jpg::decoding_verdict, (filename, header), res),
    ensures
        res is Ok <==> header == Ok::<bool, String>(true),
        res matches Err(ImageValidationError::ExceedsMaxDimensions) <==> header == Ok::<
            bool,
            String,
        >(false),
        header matches Err(reason) ==> {
            &&& res->Err_0 matches ImageValidationError::InvalidImage(text)
            &&& text@ == "Failed to parse "@ + filename@ + " as JPG: "@ + reason@
        },
{
}

/// Every file can be checked; only reading the header needs a file whose bytes the decoder
/// can count.
pub proof fn law_every_file_can_be_checked(
    filename: &str,
    file: &[u8],
    contents: &Vec<u8>,
    limits: Limits,
)
    ensures
        call_requires(jpg::check_jpg_header, (file,)),
        call_requires(jpg::find_end_of_image, (contents,)),
        call_requires(jpg::has_trailer, (contents,)),
        file@.len() <= 0x8000_0001 ==> call_requires(
            jpg::validate_decoding,
            (filename, file, limits),
        ),
{
}

/// From `start` on, the bytes `ff d9` are first at `pos`.
pub open spec fn marker_first_at(file: Seq<u8>, start: int, pos: int) -> bool {
    &&& start <= pos
    &&& pos + 2 <= file.len()
    &&& file[pos] == 0xff
    &&& file[pos + 1] == 0xd9
    &&& forall|i: int| start <= i < pos && #[trigger] file[i] == 0xff ==> file[i + 1] != 0xd9
}

/// The search behind `start` finds the first marker there, and nothing where there is none.
proof fn lemma_search(file: Seq<u8>, pos: int)
    ensures
        jpg::end_of_image(file) == Some(pos) <==> marker_first_at(
            file,
            jpg::scan_start(file, 2),
            pos,
        ),
{
    let start = jpg::scan_start(file, 2);
    jpg::lemma_scan_start_bound(file, 2);
    if marker_first_at(file, start, pos) {
        assert(jpg::is_first_eoi(file, start, pos)) by {
            assert forall|i: int| start <= i < pos implies !#[trigger] jpg::is_eoi(file, i) by {
                assert(file[i] == 0xff ==> file[i + 1] != 0xd9);
            }
        }
        jpg::lemma_end_of_image(file, pos);
    }
    if jpg::end_of_image(file) == Some(pos) {
        assert(jpg::is_first_eoi(file, start, pos));
        assert forall|i: int| start <= i < pos && #[trigger] file[i] == 0xff implies file[i + 1]
            != 0xd9 by {
            assert(!jpg::is_eoi(file, i));
        }
    }
}

/// Behind its first `from` bytes, `long` holds what `short` holds behind them, `d` later.
spec fn shifted(short: Seq<u8>, long: Seq<u8>, from: int, d: int) -> bool {
    &&& 0 <= d
    &&& long.len() == short.len() + d
    &&& forall|i: int| from <= i < short.len() ==> #[trigger] long[i + d] == short[i]
}

/// Segments are followed alike, and the marker is found alike, `d` later.
proof fn lemma_shifted_scan(short: Seq<u8>, long: Seq<u8>, from: int, d: int, pos: int)
    requires
        0 <= from <= pos,
        shifted(short, long, from, d),
    ensures
        jpg::scan_start(long, pos + d) == jpg::scan_start(short, pos) + d,
    decreases
            (if pos < short.len() {
                short.len() - pos
            } else {
                0
            }),
{
    if pos + 4 < short.len() {
        assert(long[pos + d] == short[pos]);
        assert(long[(pos + 1) + d] == short[pos + 1]);
        assert(long[(pos + 2) + d] == short[pos + 2]);
        assert(long[(pos + 3) + d] == short[pos + 3]);
        let next = jpg::next_segment(short, pos);
        assert(jpg::next_segment(long, pos + d) == next + d);
        if !jpg::is_sos(short, pos) {
            lemma_shifted_scan(short, long, from, d, next);
        }
    }
}

proof fn lemma_shifted_marker(
    short: Seq<u8>,
    long: Seq<u8>,
    from: int,
    d: int,
    start: int,
    pos: int,
)
    requires
        0 <= from <= start,
        shifted(short, long, from, d),
    ensures
        marker_first_at(long, start + d, pos + d) <==> marker_first_at(short, start, pos),
{
    if start <= pos && pos + 2 <= short.len() {
        assert(long[pos + d] == short[pos]);
        assert(long[(pos + 1) + d] == short[pos + 1]);
        if marker_first_at(long, start + d, pos + d) {
            assert forall|i: int| start <= i < pos && #[trigger] short[i] == 0xff implies short[i
                + 1] != 0xd9 by {
                assert(long[i + d] == short[i]);
                assert(long[(i + 1) + d] == short[i + 1]);
            }
        }
        if marker_first_at(short, start, pos) {
            assert forall|i: int| start + d <= i < pos + d && #[trigger] long[i]
                == 0xff implies long[i + 1] != 0xd9 by {
                assert(long[(i - d) + d] == short[i - d]);
                assert(long[(i - d + 1) + d] == short[i - d + 1]);
            }
        }
    }
}

/// A segment is as long as the 16 bit number in its size field says, most significant byte
/// first: where the segment behind the magic bytes is not a start of scan, taking it out of
/// the file moves the end of the image by its marker and that number, and does nothing else.
/// Where the number reaches beyond the file there is no end. Together with
/// `law_the_scan_is_searched` and `law_without_a_segment_all_is_searched` this says where
/// the image in any file ends.
pub proof fn law_a_segment_is_skipped_whole(file: Seq<u8>, n: int)
    requires
        file.len() > 6,
        !(file[2] == 0xff && file[3] == 0xda),
        0 <= n <= 65535,
        file[4] == n / 256,
        file[5] == n % 256,
    ensures
        n + 4 > file.len() ==> jpg::end_of_image(file) is None,
        n + 4 <= file.len() ==> match jpg::end_of_image(file.take(2) + file.skip(n + 4)) {
            Some(pos) => jpg::end_of_image(file) == Some(pos + n + 2),
            None => jpg::end_of_image(file) is None,
        },
{
    assert(jpg::segment_size(file, 4) == n);
    assert(jpg::scan_start(file, 2) == jpg::scan_start(file, n + 4));
    jpg::lemma_scan_start_bound(file, n + 4);
    if n + 4 <= file.len() {
        let cut = file.take(2) + file.skip(n + 4);
        assert(shifted(cut, file, 2, n + 2));
        lemma_shifted_scan(cut, file, 2, n + 2, 2);
        let start = jpg::scan_start(cut, 2);
        jpg::lemma_scan_start_bound(cut, 2);
        if let Some(pos) = jpg::end_of_image(cut) {
            lemma_search(cut, pos);
            lemma_shifted_marker(cut, file, 2, n + 2, start, pos);
            lemma_search(file, pos + n + 2);
        } else if let Some(pos) = jpg::end_of_image(file) {
            lemma_search(file, pos);
            lemma_shifted_marker(cut, file, 2, n + 2, start, pos - n - 2);
            lemma_search(cut, pos - n - 2);
        }
    } else if let Some(pos) = jpg::end_of_image(file) {
        lemma_search(file, pos);
    }
}

/// Where the segment behind the magic bytes is a start of scan, the image ends with the
/// first `ff d9` behind that segment, and nowhere else.
pub proof fn law_the_scan_is_searched(file: Seq<u8>, n: int, pos: int)
    requires
        file.len() > 6,
        file[2] == 0xff,
        file[3] == 0xda,
        0 <= n <= 65535,
        file[4] == n / 256,
        file[5] == n % 256,
    ensures
        jpg::end_of_image(file) == Some(pos) <==> marker_first_at(file, n + 4, pos),
{
    assert(jpg::segment_size(file, 4) == n);
    lemma_search(file, pos);
}

/// A file with no room for a segment and a byte behind its header is searched for `ff d9`
/// from behind the magic bytes.
pub proof fn law_without_a_segment_all_is_searched(file: Seq<u8>, pos: int)
    requires
        file.len() <= 6,
    ensures
        jpg::end_of_image(file) == Some(pos) <==> marker_first_at(file, 2, pos),
{
    lemma_search(file, pos);
}

/// A segment: the two bytes of its marker, and what it holds.
pub struct Segment {
    pub marker: (u8, u8),
    pub payload: Seq<u8>,
}

impl Segment {
    /// The size field counts itself and the payload.
    pub open spec fn size(self) -> int {
        2 + self.payload.len() as int
    }

    /// The size fits into its field.
    pub open spec fn fits(self) -> bool {
        self.size() <= 65535
    }

    /// The segment as it stands in a file.
    pub open spec fn stored(self) -> Seq<u8> {
        seq![
            self.marker.0,
            self.marker.1,
            (self.size() / 256) as u8,
            (self.size() % 256) as u8,
        ] + self.payload
    }

    pub open spec fn starts_scan(self) -> bool {
        self.marker == (0xffu8, 0xdau8)
    }
}

/// Segments as they stand in a file, one behind the other.
pub open spec fn all_stored(segments: Seq<Segment>) -> Seq<u8>
    decreases segments.len(),
{
    if segments.len() == 0 {
        Seq::empty()
    } else {
        segments[0].stored() + all_stored(segments.skip(1))
    }
}

/// Segments of which none starts the scan.
pub open spec fn is_header(segments: Seq<Segment>) -> bool {
    forall|i: int|
        0 <= i < segments.len() ==> (#[trigger] segments[i]).fits() && !segments[i].starts_scan()
}

/// The bytes `ff d9` do not occur.
pub open spec fn has_no_marker(data: Seq<u8>) -> bool {
    forall|i: int| 0 <= i < data.len() - 1 && #[trigger] data[i] == 0xff ==> data[i + 1] != 0xd9
}

/// Putting a segment right behind the magic bytes moves the end of the image by what was
/// put there, and leaves a file without an end without one.
pub proof fn law_a_segment_put_in_moves_the_end(
    magic: Seq<u8>,
    segment: Segment,
    rest: Seq<u8>,
)
    requires
        magic.len() == 2,
        segment.fits(),
        !segment.starts_scan(),
        segment.payload.len() + rest.len() > 0,
    ensures
        match jpg::end_of_image(magic + rest) {
            Some(pos) => jpg::end_of_image(magic + segment.stored() + rest) == Some(
                pos + segment.stored().len(),
            ),
            None => jpg::end_of_image(magic + segment.stored() + rest) is None,
        },
        segment.stored().len() == segment.size() + 2,
{
    let file = magic + segment.stored() + rest;
    let n = segment.size();
    assert(file[2] == segment.marker.0);
    assert(file[3] == segment.marker.1);
    assert(file[4] == n / 256);
    assert(file[5] == n % 256);
    law_a_segment_is_skipped_whole(file, n);
    assert(file.take(2) + file.skip(n + 4) =~= magic + rest);
}

/// Putting a segment right behind the magic bytes leaves the answer on a trailer as it was.
pub proof fn law_a_segment_put_in_keeps_the_answer(
    magic: Seq<u8>,
    segment: Segment,
    rest: Seq<u8>,
    without: &Vec<u8>,
    with: &Vec<u8>,
    res_without: Result<bool, ImageValidationError>,
    res_with: Result<bool, ImageValidationError>,
)
    requires
        magic.len() == 2,
        segment.fits(),
        !segment.starts_scan(),
        segment.payload.len() + rest.len() > 0,
        without@ == magic + rest,
        with@ == magic + segment.stored() + rest,
        call_ensures(jpg::has_trailer, (without,), res_without),
        call_ensures(jpg::has_trailer, (with,), res_with),
    ensures
        res_with is Ok <==> res_without is Ok,
        res_without matches Ok(answer) ==> res_with == Ok::<bool, ImageValidationError>(answer),
{
    law_a_segment_put_in_moves_the_end(magic, segment, rest);
    if let Some(pos) = jpg::end_of_image(without@) {
        lemma_search(without@, pos);
        jpg::lemma_scan_start_bound(without@, 2);
    }
}

/// An image without header segments ends behind its data.
proof fn lemma_scan_ends_behind_its_data(
    magic: Seq<u8>,
    scan: Segment,
    data: Seq<u8>,
    trailer: Seq<u8>,
)
    requires
        magic.len() == 2,
        scan.fits(),
        scan.starts_scan(),
        has_no_marker(data),
    ensures
        jpg::end_of_image(magic + scan.stored() + data + seq![0xffu8, 0xd9u8] + trailer) == Some(
            scan.size() + 4 + data.len(),
        ),
{
    let file = magic + scan.stored() + data + seq![0xffu8, 0xd9u8] + trailer;
    let n = scan.size();
    let pos = n + 4 + data.len();
    assert(file[2] == 0xff && file[3] == 0xda);
    assert(file[4] == n / 256);
    assert(file[5] == n % 256);
    assert(file[pos] == 0xff);
    assert(file[pos + 1] == 0xd9);
    assert forall|i: int| n + 4 <= i < pos && #[trigger] file[i] == 0xff implies file[i + 1]
        != 0xd9 by {
        let j = i - n - 4;
        assert(file[i] == data[j]);
        if i + 1 < pos {
            assert(file[i + 1] == data[j + 1]);
        }
    }
    law_the_scan_is_searched(file, n, pos);
}

/// The segments behind the first are header segments too.
proof fn lemma_other_segments(header: Seq<Segment>)
    requires
        is_header(header),
        header.len() > 0,
    ensures
        is_header(header.skip(1)),
        header[0].fits(),
        !header[0].starts_scan(),
{
    let others = header.skip(1);
    assert forall|i: int| 0 <= i < others.len() implies (#[trigger] others[i]).fits()
        && !others[i].starts_scan() by {
        assert(others[i] == header[i + 1]);
    }
}

/// A whole image, with header segments, a scan and its data, ends with the marker behind the
/// data, whatever the segments hold and whatever follows.
pub proof fn law_a_whole_image_ends_behind_its_data(
    magic: Seq<u8>,
    header: Seq<Segment>,
    scan: Segment,
    data: Seq<u8>,
    trailer: Seq<u8>,
)
    requires
        magic.len() == 2,
        is_header(header),
        scan.fits(),
        scan.starts_scan(),
        has_no_marker(data),
    ensures
        ({
            let image = magic + (all_stored(header) + (scan.stored() + data));
            jpg::end_of_image(image + seq![0xffu8, 0xd9u8] + trailer) == Some(image.len() as int)
        }),
    decreases header.len(),
{
    let end = seq![0xffu8, 0xd9u8];
    let last = scan.stored() + data;
    let image = magic + (all_stored(header) + last);
    let file = image + end + trailer;
    if header.len() == 0 {
        lemma_scan_ends_behind_its_data(magic, scan, data, trailer);
        assert(file =~= magic + scan.stored() + data + end + trailer);
    } else {
        let others = header.skip(1);
        let first = header[0].stored();
        let inner = magic + (all_stored(others) + last);
        let rest = all_stored(others) + last + end + trailer;
        lemma_other_segments(header);
        law_a_whole_image_ends_behind_its_data(magic, others, scan, data, trailer);
        law_a_segment_put_in_moves_the_end(magic, header[0], rest);
        assert(magic + rest =~= inner + end + trailer);
        assert(file =~= magic + first + rest);
    }
}

/// A trailer is detected exactly where there is one: of a whole image, with any header and
/// any scan, the answer is whether any bytes follow its end.
pub proof fn law_a_trailer_is_what_follows_the_image(
    magic: Seq<u8>,
    header: Seq<Segment>,
    scan: Segment,
    data: Seq<u8>,
    trailer: Seq<u8>,
    contents: &Vec<u8>,
    res: Result<bool, ImageValidationError>,
)
    requires
        magic.len() == 2,
        is_header(header),
        scan.fits(),
        scan.starts_scan(),
        has_no_marker(data),
        contents@ == magic + (all_stored(header) + (scan.stored() + data)) + seq![0xffu8, 0xd9u8]
            + trailer,
        call_ensures(jpg::has_trailer, (contents,), res),
    ensures
        res == Ok::<bool, ImageValidationError>(trailer.len() > 0),
{
    law_a_whole_image_ends_behind_its_data(magic, header, scan, data, trailer);
}

/// An image whose data has no end marker has no end.
proof fn lemma_no_marker_no_end(
    magic: Seq<u8>,
    header: Seq<Segment>,
    scan: Segment,
    data: Seq<u8>,
)
    requires
        magic.len() == 2,
        is_header(header),
        scan.fits(),
        scan.starts_scan(),
        has_no_marker(data),
        scan.payload.len() + data.len() > 0,
    ensures
        jpg::end_of_image(magic + (all_stored(header) + (scan.stored() + data))) is None,
    decreases header.len(),
{
    let file = magic + (all_stored(header) + (scan.stored() + data));
    if header.len() == 0 {
        let n = scan.size();
        assert(all_stored(header) + (scan.stored() + data) =~= scan.stored() + data);
        assert(file[2] == 0xff && file[3] == 0xda);
        assert(file[4] == n / 256);
        assert(file[5] == n % 256);
        if let Some(pos) = jpg::end_of_image(file) {
            law_the_scan_is_searched(file, n, pos);
            assert(file[pos] == data[pos - n - 4]);
            assert(file[pos + 1] == data[pos - n - 4 + 1]);
        }
    } else {
        let others = header.skip(1);
        let rest = all_stored(others) + (scan.stored() + data);
        lemma_other_segments(header);
        lemma_no_marker_no_end(magic, others, scan, data);
        law_a_segment_put_in_moves_the_end(magic, header[0], rest);
        assert(magic + header[0].stored() + rest =~= file);
    }
}

/// An image whose data has no end marker is invalid, and why.
pub proof fn law_an_image_without_end_is_invalid(
    magic: Seq<u8>,
    header: Seq<Segment>,
    scan: Segment,
    data: Seq<u8>,
    contents: &Vec<u8>,
    res: Result<bool, ImageValidationError>,
)
    requires
        magic.len() == 2,
        is_header(header),
        scan.fits(),
        scan.starts_scan(),
        has_no_marker(data),
        scan.payload.len() + data.len() > 0,
        contents@ == magic + (all_stored(header) + (scan.stored() + data)),
        call_ensures(jpg::has_trailer, (contents,), res),
    ensures
        res is Err,
        res->Err_0 matches ImageValidationError::InvalidImage(text) && text@
            == "End of image magic bytes not found in JPEG"@,
{
    lemma_no_marker_no_end(magic, header, scan, data);
}

/// A file of less than four bytes is invalid, and the reason gives its length.
pub proof fn law_a_short_file_is_invalid(
    contents: &Vec<u8>,
    res: Result<bool, ImageValidationError>,
)
    requires
        contents@.len() < 4,
        call_ensures(jpg::has_trailer, (contents,), res),
    ensures
        res is Err,
        res->Err_0 matches ImageValidationError::InvalidImage(text) && text@
            == "JPEG file is too short to be valid, got "@ + seq![
            seq!['0', '1', '2', '3'][contents@.len() as int],
        ] + " bytes"@,
{
}

/// Of a file that is not too short, the answer is whether anything follows where the image
/// ends, which is also what is found as its end; without an end the file is invalid.
pub proof fn law_the_end_decides(
    contents: &Vec<u8>,
    end: Option<usize>,
    res: Result<bool, ImageValidationError>,
)
    requires
        call_ensures(jpg::find_end_of_image, (contents,), end),
        call_ensures(jpg::has_trailer, (contents,), res),
    ensures
        end matches Some(pos) ==> {
            &&& jpg::end_of_image(contents@) == Some(pos as int)
            &&& res is Ok
            &&& res->Ok_0 <==> contents@.len() - pos > 2
        },
        end is None ==> jpg::end_of_image(contents@) is None && res is Err,
        end is None && contents@.len() >= 4 ==> {
            &&& res->Err_0 matches ImageValidationError::InvalidImage(text)
            &&& text@ == "End of image magic bytes not found in JPEG"@
        },
{
    if let Some(pos) = jpg::end_of_image(contents@) {
        lemma_search(contents@, pos);
        jpg::lemma_scan_start_bound(contents@, 2);
    }
}

} // verus!
