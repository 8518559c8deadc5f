//! What holds of the search for the end of an image.

use crate::jpg;
use vstd::prelude::*;

verus! {

/// The segments that follow one another from `pos` lead to a start-of-scan marker.
pub open spec fn reaches_scan(contents: Seq<u8>, pos: int) -> bool
    decreases
            (if pos < contents.len() {
                contents.len() - pos
            } else {
                0
            }),
{
    &&& pos + 4 < contents.len()
    &&& jpg::is_sos(contents, pos) || reaches_scan(contents, jpg::next_segment(contents, pos))
}

/// Where an image ends there is an end-of-image marker, behind the magic bytes.
pub proof fn law_image_ends_with_marker(contents: Seq<u8>)
    ensures
        jpg::end_of_image(contents) matches Some(pos) ==> {
            &&& 2 <= pos
            &&& pos + 2 <= contents.len()
            &&& contents[pos] == 0xff
            &&& contents[pos + 1] == 0xd9
        },
{
    jpg::lemma_scan_start_bound(contents, 2);
}

/// More bytes never move the start of the search to an earlier place, and leave it where
/// it is if a start-of-scan marker was reached without them.
pub proof fn law_search_start_and_more_bytes(contents: Seq<u8>, more: Seq<u8>, pos: int)
    requires
        0 <= pos,
    ensures
        jpg::scan_start(contents, pos) <= jpg::scan_start(contents + more, pos),
        reaches_scan(contents, pos) ==> jpg::scan_start(contents, pos) == jpg::scan_start(
            contents + more,
            pos,
        ) && reaches_scan(contents + more, pos),
    decreases
            (if pos < contents.len() {
                contents.len() - pos
            } else {
                0
            }),
{
    if pos + 4 >= contents.len() {
        jpg::lemma_scan_start_bound(contents + more, pos);
    } else {
        let next = jpg::next_segment(contents, pos);
        assert(next == jpg::next_segment(contents + more, pos));
        assert(jpg::is_sos(contents, pos) == jpg::is_sos(contents + more, pos));
        if !jpg::is_sos(contents, pos) {
            law_search_start_and_more_bytes(contents, more, next);
        }
    }
}

/// An image ends where it ended before bytes were put behind it, unless the search for
/// the end then begins behind that place.
pub proof fn law_image_end_and_more_bytes(contents: Seq<u8>, more: Seq<u8>)
    requires
        jpg::end_of_image(contents) is Some,
        jpg::scan_start(contents + more, 2) <= jpg::end_of_image(contents)->0,
    ensures
        jpg::end_of_image(contents + more) == jpg::end_of_image(contents),
{
    let all = contents + more;
    let pos = jpg::end_of_image(contents)->0;
    let start = jpg::scan_start(all, 2);
    law_search_start_and_more_bytes(contents, more, 2);
    law_image_ends_with_marker(contents);
    assert(jpg::is_eoi(all, pos));
    assert forall|i: int| start <= i < pos implies !#[trigger] jpg::is_eoi(all, i) by {
        assert(!jpg::is_eoi(contents, i));
    }
    jpg::lemma_end_of_image(all, pos);
}

/// Bytes put behind an image that reaches its scan are found, however many there are:
/// the image ends where it did, before the end of the file.
pub proof fn law_appended_bytes_are_found(contents: Seq<u8>, more: Seq<u8>)
    requires
        reaches_scan(contents, 2),
        jpg::end_of_image(contents) is Some,
        more.len() > 0,
    ensures
        jpg::end_of_image(contents + more) == jpg::end_of_image(contents),
        jpg::end_of_image(contents + more)->0 + 2 < (contents + more).len(),
{
    law_search_start_and_more_bytes(contents, more, 2);
    law_image_ends_with_marker(contents);
    law_image_end_and_more_bytes(contents, more);
}

/// Cutting a file behind the end of its image removes the trailer, if what is left
/// reaches the scan.
pub proof fn law_cutting_removes_the_trailer(contents: Seq<u8>)
    requires
        jpg::end_of_image(contents) is Some,
        reaches_scan(contents.take(jpg::end_of_image(contents)->0 + 2), 2),
    ensures
        ({
            let cut = contents.take(jpg::end_of_image(contents)->0 + 2);
            jpg::end_of_image(cut) == Some(cut.len() - 2)
        }),
{
    law_image_ends_with_marker(contents);
    let pos = jpg::end_of_image(contents)->0;
    let cut = contents.take(pos + 2);
    let rest = contents.skip(pos + 2);
    assert(contents =~= cut + rest);
    law_search_start_and_more_bytes(cut, rest, 2);
    let start = jpg::scan_start(cut, 2);
    assert(jpg::is_eoi(cut, pos));
    assert forall|i: int| start <= i < pos implies !#[trigger] jpg::is_eoi(cut, i) by {
        assert(!jpg::is_eoi(contents, i));
    }
    jpg::lemma_end_of_image(cut, pos);
}

} // verus!
