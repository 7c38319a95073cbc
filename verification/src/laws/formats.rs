//! How an input's format is told, and what formats are called.

use crate::transform::box_size;
use crate::transform::has_bytes;
use crate::transform::is_avif;
use crate::transform::is_avif_brand;
use crate::transform::sniffed;
use crate::transform::Format;
use vstd::prelude::*;

verus! {

/// JPEG: FF D8 FF.
pub open spec fn starts_as_jpeg(b: Seq<u8>) -> bool {
    b.len() >= 3 && b[0] == 255 && b[1] == 216 && b[2] == 255
}

/// PNG: 89, then `PNG`.
pub open spec fn starts_as_png(b: Seq<u8>) -> bool {
    b.len() >= 4 && b[0] == 137 && b[1] == 80 && b[2] == 78 && b[3] == 71
}

/// WebP: `RIFF`, four bytes, then `WEBP`.
pub open spec fn starts_as_webp(b: Seq<u8>) -> bool {
    &&& b.len() >= 12
    &&& b[0] == 82 && b[1] == 73 && b[2] == 70 && b[3] == 70
    &&& b[8] == 87 && b[9] == 69 && b[10] == 66 && b[11] == 80
}

/// `avif` or `avis` stands at `at`.
pub open spec fn has_brand(b: Seq<u8>, at: int) -> bool {
    b[at] == 97 && b[at + 1] == 118 && b[at + 2] == 105 && (b[at + 3] == 102 || b[at + 3] == 115)
}

/// AVIF: four bytes for the size of a box, `ftyp`, and an AVIF brand among the groups of four bytes
/// that follow inside the box.
pub open spec fn starts_as_avif(b: Seq<u8>) -> bool {
    &&& b.len() >= 12
    &&& b[4] == 102 && b[5] == 116 && b[6] == 121 && b[7] == 112
    &&& exists|k: int|
        2 <= k && 4 * k + 4 <= b.len() && 4 * k + 4 <= ((b[0] * 256 + b[1]) * 256 + b[2]) * 256
            + b[3] && #[trigger] has_brand(b, 4 * k)
}

proof fn lemma_four_bytes(b: Seq<u8>, at: int, m0: u8, m1: u8, m2: u8, m3: u8)
    requires
        0 <= at,
    ensures
        has_bytes(b, at, seq![m0, m1, m2, m3]) <==> at + 4 <= b.len() && b[at] == m0 && b[at + 1]
            == m1 && b[at + 2] == m2 && b[at + 3] == m3,
{
    let magic = seq![m0, m1, m2, m3];
    if at + 4 <= b.len() {
        let there = b.subrange(at, at + 4);
        if there == magic {
            assert(there[0] == m0 && there[1] == m1 && there[2] == m2 && there[3] == m3);
        }
        if b[at] == m0 && b[at + 1] == m1 && b[at + 2] == m2 && b[at + 3] == m3 {
            assert(there =~= magic);
        }
    }
}

proof fn lemma_brand(b: Seq<u8>, at: int)
    requires
        0 <= at,
        at + 4 <= b.len(),
    ensures
        is_avif_brand(b, at) <==> has_brand(b, at),
{
    lemma_four_bytes(b, at, 0x61, 0x76, 0x69, 0x66);
    lemma_four_bytes(b, at, 0x61, 0x76, 0x69, 0x73);
}

/// The format of an input is told by its magic bytes, and by nothing else. JPEG, PNG and WebP come
/// before AVIF.
pub proof fn law_magic_bytes_tell_the_format(b: Seq<u8>)
    ensures
        sniffed(b) == Some(Format::Jpeg) <==> starts_as_jpeg(b),
        sniffed(b) == Some(Format::Png) <==> starts_as_png(b),
        sniffed(b) == Some(Format::Webp) <==> starts_as_webp(b),
        sniffed(b) == Some(Format::Avif) <==> starts_as_avif(b) && !starts_as_jpeg(b)
            && !starts_as_png(b) && !starts_as_webp(b),
{
    let jpeg = seq![0xFFu8, 0xD8, 0xFF];
    if b.len() >= 3 {
        let there = b.subrange(0, 3);
        if there == jpeg {
            assert(there[0] == jpeg[0] && there[1] == jpeg[1] && there[2] == jpeg[2]);
        }
        if starts_as_jpeg(b) {
            assert(there =~= jpeg);
        }
    }
    lemma_four_bytes(b, 0, 0x89, 0x50, 0x4E, 0x47);
    lemma_four_bytes(b, 0, 0x52, 0x49, 0x46, 0x46);
    lemma_four_bytes(b, 8, 0x57, 0x45, 0x42, 0x50);
    lemma_four_bytes(b, 4, 0x66, 0x74, 0x79, 0x70);
    if is_avif(b) {
        let k = choose|k: nat|
            8 + 4 * k + 4 <= box_size(b) && 8 + 4 * k + 4 <= b.len() && #[trigger] is_avif_brand(
                b,
                (8 + 4 * k) as int,
            );
        lemma_brand(b, (8 + 4 * k) as int);
        assert(has_brand(b, 4 * (k as int + 2)));
    }
    if starts_as_avif(b) {
        let k = choose|k: int|
            2 <= k && 4 * k + 4 <= b.len() && 4 * k + 4 <= ((b[0] * 256 + b[1]) * 256 + b[2]) * 256
                + b[3] && #[trigger] has_brand(b, 4 * k);
        lemma_brand(b, 4 * k);
        let m = (k - 2) as nat;
        assert(is_avif_brand(b, (8 + 4 * m) as int));
    }
}

/// Formats are called by their usual names, which are all different.
pub proof fn law_formats_have_their_names(a: Format, b: Format)
    ensures
        Format::Jpeg.named() == seq!['j', 'p', 'e', 'g'],
        Format::Png.named() == seq!['p', 'n', 'g'],
        Format::Webp.named() == seq!['w', 'e', 'b', 'p'],
        Format::Avif.named() == seq!['a', 'v', 'i', 'f'],
        a.named() == b.named() ==> a == b,
{
    reveal_strlit("jpeg");
    reveal_strlit("png");
    reveal_strlit("webp");
    reveal_strlit("avif");
    assert(Format::Jpeg.named() =~= seq!['j', 'p', 'e', 'g']);
    assert(Format::Png.named() =~= seq!['p', 'n', 'g']);
    assert(Format::Webp.named() =~= seq!['w', 'e', 'b', 'p']);
    assert(Format::Avif.named() =~= seq!['a', 'v', 'i', 'f']);
    assert(Format::Jpeg.named()[0] == 'j');
    assert(Format::Png.named()[0] == 'p');
    assert(Format::Webp.named()[0] == 'w');
    assert(Format::Avif.named()[0] == 'a');
}

} // verus!
