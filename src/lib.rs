//! Packs linear HDR RGB data as RGB9E5 and stores it in KTX2 containers.
pub mod ktx2_writer;
pub mod rgb9e5;

use crate::ktx2_writer::{
    container_bytes, container_length, lemma_container_same, same_levels, Header, KTX2Writer,
    WriterLevel, HEADER_LENGTH, LEVEL_INDEX_LENGTH, le_bytes, payload,
};
use crate::rgb9e5::{float3_to_rgb9e5, rgb9e5_of};
use vstd::prelude::*;

verus! {

/// KTX2 format value of `E5B9G9R9_UFLOAT_PACK32`.
pub const FORMAT_E5B9G9R9_UFLOAT_PACK32: u32 = 123;

/// KTX2 supercompression scheme value of Zstandard.
pub const SUPERCOMPRESSION_ZSTANDARD: u32 = 2;

/// Zstandard level that selects the library's default.
pub const ZSTD_DEFAULT_LEVEL: i32 = 0;

/// Every word as 4 little-endian bytes, in order.
pub open spec fn words_le_bytes(words: Seq<u32>) -> Seq<u8>
    decreases words.len(),
{
    if words.len() == 0 {
        seq![]
    } else {
        words_le_bytes(words.drop_last()) + le_bytes(words.last() as nat, 4)
    }
}

pub proof fn lemma_words_le_bytes_len(words: Seq<u32>)
    ensures
        words_le_bytes(words).len() == 4 * words.len(),
    decreases words.len(),
{
    if words.len() > 0 {
        lemma_words_le_bytes_len(words.drop_last());
        crate::ktx2_writer::lemma_le_bytes_len(words.last() as nat, 4);
    }
}

/// The bytes of `vecs`, each word little-endian.
pub fn u32_to_bytes(vecs: &[u32]) -> (r: Vec<u8>)
    requires
        4 * vecs@.len() <= usize::MAX,
    ensures
        r@ == words_le_bytes(vecs@),
{
    let mut out: Vec<u8> = Vec::new();
    let mut i: usize = 0;
    while i < vecs.len()
        invariant
            i <= vecs@.len(),
            4 * vecs@.len() <= usize::MAX,
            out@ == words_le_bytes(vecs@.subrange(0, i as int)),
        decreases vecs@.len() - i,
    {
        let w = vecs[i];
        proof {
            lemma_words_le_bytes_len(vecs@.subrange(0, i as int));
        }
        out.push((w % 256) as u8);
        out.push(((w / 256) % 256) as u8);
        out.push(((w / 65536) % 256) as u8);
        out.push(((w / 16777216) % 256) as u8);
        proof {
            let s = vecs@.subrange(0, i + 1);
            assert(s.drop_last() =~= vecs@.subrange(0, i as int));
            reveal_with_fuel(le_bytes, 5);
            assert(w as nat / 256 / 256 == w as nat / 65536);
            assert(w as nat / 256 / 256 / 256 == w as nat / 16777216);
            assert(out@ =~= words_le_bytes(s));
        }
        i = i + 1;
    }
    assert(vecs@.subrange(0, i as int) =~= vecs@);
    out
}

/// Reads the bytes, two by two, as little-endian 16-bit half-float bit
/// patterns.
pub fn to_vec_f16_from_byte_slice(vecs: &[u8]) -> (r: Vec<u16>)
    requires
        vecs@.len() % 2 == 0,
    ensures
        r@.len() == vecs@.len() / 2,
        forall|i: int|
            0 <= i < r@.len() ==> #[trigger] r@[i] == vecs@[2 * i] + 256 * vecs@[2 * i + 1],
{
    let mut out: Vec<u16> = Vec::new();
    let n = vecs.len() / 2;
    let mut i: usize = 0;
    while i < n
        invariant
            i <= n,
            n == vecs@.len() / 2,
            vecs@.len() <= usize::MAX,
            out@.len() == i,
            forall|j: int|
                0 <= j < i ==> #[trigger] out@[j] == vecs@[2 * j] + 256 * vecs@[2 * j + 1],
        decreases n - i,
    {
        assert(2 * i + 1 < vecs@.len());
        let lo = vecs[2 * i] as u16;
        let hi = vecs[2 * i + 1] as u16;
        assert(256 * hi <= 65280) by (nonlinear_arith)
            requires
                hi <= 255,
        ;
        out.push(lo + 256 * hi);
        i = i + 1;
    }
    out
}

/// Encodes RGBA pixels, given as binary32 bit patterns, to one RGB9E5 word
/// each; alpha is dropped. A last pixel may lack its alpha.
pub fn rgb9e5_pixels(rgba: &[u32]) -> (r: Vec<u32>)
    requires
        rgba@.len() % 4 == 0 || rgba@.len() % 4 == 3,
    ensures
        r@.len() == (rgba@.len() + 3) / 4,
        forall|i: int|
            0 <= i < r@.len() ==> #[trigger] r@[i] == rgb9e5_of(
                rgba@[4 * i],
                rgba@[4 * i + 1],
                rgba@[4 * i + 2],
            ),
{
    let mut out: Vec<u32> = Vec::new();
    let count = rgba.len() / 4 + if rgba.len() % 4 == 3 {
        1
    } else {
        0
    };
    let mut k: usize = 0;
    while k < count
        invariant
            k <= count,
            count == (rgba@.len() + 3) / 4,
            rgba@.len() <= usize::MAX,
            rgba@.len() % 4 == 0 || rgba@.len() % 4 == 3,
            out@.len() == k,
            forall|j: int|
                0 <= j < out@.len() ==> #[trigger] out@[j] == rgb9e5_of(
                    rgba@[4 * j],
                    rgba@[4 * j + 1],
                    rgba@[4 * j + 2],
                ),
        decreases count - k,
    {
        assert(rgba@.len() == 4 * (rgba@.len() / 4) + rgba@.len() % 4);
        assert(4 * k + 3 <= rgba@.len());
        let i = 4 * k;
        let w = float3_to_rgb9e5(&rgba[i..i + 3]);
        out.push(w);
        k = k + 1;
    }
    out
}

/// What zstd makes of `data` at compression level `level`.
pub uninterp spec fn zstd_compressed(data: Seq<u8>, level: int) -> Seq<u8>;

/// Relies on zstd::bulk::compress: on success, the compressed frame, which
/// depends on the data and the level alone. Each call compresses with a fresh
/// context into a buffer of the worst-case bound, so at the default level 0
/// it does not fail.
#[verifier::external_body]
fn zstd_compress(data: &[u8], level: i32) -> (r: Option<Vec<u8>>)
    ensures
        r matches Some(c) ==> c@ == zstd_compressed(data@, level as int),
        level == 0 ==> r is Some,
{
    zstd::bulk::compress(data, level).ok()
}

/// One level of RGB9E5 words, as little-endian bytes compressed with
/// Zstandard at the default level.
pub fn compress_level(words: &[u32]) -> (r: WriterLevel)
    requires
        4 * words@.len() <= usize::MAX,
    ensures
        r.uncompressed_length == 4 * words@.len(),
        r.bytes@ == zstd_compressed(words_le_bytes(words@), ZSTD_DEFAULT_LEVEL as int),
{
    let bytes = u32_to_bytes(words);
    proof {
        lemma_words_le_bytes_len(words@);
    }
    let uncompressed_length = bytes.len();
    let compressed = zstd_compress(bytes.as_slice(), ZSTD_DEFAULT_LEVEL);
    match compressed {
        Some(c) => WriterLevel { uncompressed_length, bytes: c },
        None => {
            assert(false);
            WriterLevel { uncompressed_length, bytes: Vec::new() }
        },
    }
}

/// The words that `rgb9e5_pixels` makes of RGBA pixels.
pub open spec fn pixel_words(rgba: Seq<u32>) -> Seq<u32> {
    Seq::new(
        ((rgba.len() + 3) / 4) as nat,
        |i: int| rgb9e5_of(rgba[4 * i], rgba[4 * i + 1], rgba[4 * i + 2]) as u32,
    )
}

/// The words of every face, face after face.
pub open spec fn faces_words(faces: Seq<Vec<u32>>) -> Seq<u32>
    decreases faces.len(),
{
    if faces.len() == 0 {
        seq![]
    } else {
        faces_words(faces.drop_last()) + pixel_words(faces.last()@)
    }
}

/// Encodes the RGBA pixels of several faces (binary32 bit patterns) into one
/// run of RGB9E5 words, the first face first.
pub fn rgb9e5_faces(faces: &[Vec<u32>]) -> (r: Vec<u32>)
    requires
        forall|f: int|
            0 <= f < faces@.len() ==> (#[trigger] faces@[f])@.len() % 4 == 0 || faces@[f]@.len() % 4
                == 3,
    ensures
        r@ == faces_words(faces@),
{
    let mut out: Vec<u32> = Vec::new();
    let mut f: usize = 0;
    while f < faces.len()
        invariant
            f <= faces@.len(),
            forall|g: int|
                0 <= g < faces@.len() ==> (#[trigger] faces@[g])@.len() % 4 == 0 || faces@[g]@.len()
                    % 4 == 3,
            out@ == faces_words(faces@.subrange(0, f as int)),
        decreases faces@.len() - f,
    {
        let words = rgb9e5_pixels(faces[f].as_slice());
        assert(words@ =~= pixel_words(faces@[f as int]@));
        let ghost base = out@;
        let mut j: usize = 0;
        while j < words.len()
            invariant
                j <= words@.len(),
                out@ == base + words@.subrange(0, j as int),
            decreases words@.len() - j,
        {
            out.push(words[j]);
            j = j + 1;
            assert(words@.subrange(0, j as int) =~= words@.subrange(0, j - 1) + seq![words@[j - 1]]);
        }
        assert(words@.subrange(0, j as int) =~= words@);
        let ghost next = faces@.subrange(0, f + 1);
        assert(next.drop_last() =~= faces@.subrange(0, f as int));
        f = f + 1;
    }
    assert(faces@.subrange(0, f as int) =~= faces@);
    out
}

/// Header of an RGB9E5 cubemap of the given base size, stored with Zstandard.
pub open spec fn cubemap_header(width: u32, height: u32) -> Header {
    Header {
        format: Some(FORMAT_E5B9G9R9_UFLOAT_PACK32),
        type_size: 4,
        pixel_width: width,
        pixel_height: height,
        pixel_depth: 1,
        layer_count: 1,
        face_count: 6,
        supercompression_scheme: Some(SUPERCOMPRESSION_ZSTANDARD),
    }
}

/// The data format descriptor bytes written for RGB9E5: the words 0, 0, 2.
pub open spec fn rgb9e5_dfd() -> Seq<u8> {
    words_le_bytes(seq![0u32, 0, 2])
}

/// The bytes of a KTX2 cubemap file holding the given levels (highest
/// resolution first); `None` exactly when the file would not fit in memory.
pub fn write_cubemap_levels(width: u32, height: u32, levels: Vec<WriterLevel>) -> (r: Option<Vec<u8>>)
    ensures
        r is Some <==> container_length(rgb9e5_dfd(), levels@) <= usize::MAX,
        r matches Some(b) ==> b@ == container_bytes(cubemap_header(width, height), rgb9e5_dfd(), levels@),
{
    let dfd_words: [u32; 3] = [0u32, 0, 2];
    let dfd = u32_to_bytes(dfd_words.as_slice());
    proof {
        assert(dfd_words@ =~= seq![0u32, 0, 2]);
        lemma_words_le_bytes_len(seq![0u32, 0, 2]);
    }
    // The file length, checked against the address space.
    let n = levels.len();
    if n > (usize::MAX - HEADER_LENGTH - 12) / LEVEL_INDEX_LENGTH {
        assert(HEADER_LENGTH + n * LEVEL_INDEX_LENGTH + 12 > usize::MAX) by (nonlinear_arith)
            requires
                n > (usize::MAX - 92) / 24,
        ;
        assert(container_length(rgb9e5_dfd(), levels@) >= HEADER_LENGTH + n * LEVEL_INDEX_LENGTH
            + 12);
        return None;
    }
    let mut total: usize = HEADER_LENGTH + n * LEVEL_INDEX_LENGTH + 12;
    let mut j = n;
    while j > 0
        invariant
            j <= n,
            n == levels@.len(),
            dfd@ == rgb9e5_dfd(),
            total == HEADER_LENGTH + n * LEVEL_INDEX_LENGTH + 12 + payload(
                levels@.subrange(j as int, n as int),
            ).len(),
        decreases j,
    {
        let len = levels[j - 1].bytes.len();
        proof {
            crate::ktx2_writer::lemma_payload_step(levels@, j - 1);
            crate::ktx2_writer::lemma_payload_prefix(levels@, j - 1);
        }
        if total > usize::MAX - len {
            assert(payload(levels@.subrange(j - 1, n as int)).len() == payload(
                levels@.subrange(j as int, n as int),
            ).len() + len);
            proof {
                lemma_words_le_bytes_len(seq![0u32, 0, 2]);
            }
            assert(rgb9e5_dfd().len() == 12);
            assert(crate::ktx2_writer::dfd_offset(levels@.len()) == HEADER_LENGTH + n
                * LEVEL_INDEX_LENGTH);
            assert(container_length(rgb9e5_dfd(), levels@) >= total + len);
            return None;
        }
        total = total + len;
        j = j - 1;
    }
    assert(levels@.subrange(0, n as int) =~= levels@);
    let writer = KTX2Writer {
        header: Header {
            format: Some(FORMAT_E5B9G9R9_UFLOAT_PACK32),
            type_size: 4,
            pixel_width: width,
            pixel_height: height,
            pixel_depth: 1,
            layer_count: 1,
            face_count: 6,
            supercompression_scheme: Some(SUPERCOMPRESSION_ZSTANDARD),
        },
        dfd_bytes: dfd.as_slice(),
        levels_descending: levels,
    };
    assert(writer.dfd_bytes@ == rgb9e5_dfd());
    assert(writer.levels_descending@ == levels@);
    Some(writer.write())
}

/// Every face holds whole RGBA pixels, but for a last pixel that may lack its alpha.
pub open spec fn faces_well_formed(faces: Seq<Vec<u32>>) -> bool {
    forall|f: int|
        0 <= f < faces.len() ==> (#[trigger] faces[f])@.len() % 4 == 0 || faces[f]@.len() % 4 == 3
}

/// `level` holds the RGB9E5 words of `faces`, face after face, as
/// little-endian bytes compressed with Zstandard at the default level.
pub open spec fn is_rgb9e5_level(level: WriterLevel, faces: Seq<Vec<u32>>) -> bool {
    &&& level.uncompressed_length == 4 * faces_words(faces).len()
    &&& level.bytes@ == zstd_compressed(
        words_le_bytes(faces_words(faces)),
        ZSTD_DEFAULT_LEVEL as int,
    )
}

/// `levels` are the encoded mip levels, one for each entry of `mips`.
pub open spec fn rgb9e5_levels(levels: Seq<WriterLevel>, mips: Seq<Vec<Vec<u32>>>) -> bool {
    &&& levels.len() == mips.len()
    &&& forall|l: int| 0 <= l < levels.len() ==> #[trigger] is_rgb9e5_level(levels[l], mips[l]@)
}

proof fn lemma_rgb9e5_levels_same(l1: Seq<WriterLevel>, l2: Seq<WriterLevel>, mips: Seq<Vec<Vec<u32>>>)
    requires
        rgb9e5_levels(l1, mips),
        rgb9e5_levels(l2, mips),
    ensures
        same_levels(l1, l2),
{
    assert forall|i: int| 0 <= i < l1.len() implies #[trigger] l1[i].bytes@ == l2[i].bytes@
        && l1[i].uncompressed_length == l2[i].uncompressed_length by {
        assert(is_rgb9e5_level(l1[i], mips[i]@));
        assert(is_rgb9e5_level(l2[i], mips[i]@));
    }
}

/// The bytes of a KTX2 cubemap file of RGB9E5 texels. `mips` holds, for
/// each mip level from the highest resolution down, the RGBA pixels of each
/// face as binary32 bit patterns; each level's words are compressed with
/// Zstandard. `None` exactly when a level or the file would not fit in memory.
pub fn write_ktx2(width: u32, height: u32, mips: &[Vec<Vec<u32>>]) -> (r: Option<Vec<u8>>)
    requires
        forall|l: int| 0 <= l < mips@.len() ==> faces_well_formed(#[trigger] mips@[l]@),
    ensures
        r is Some <==> exists|levels: Seq<WriterLevel>|
            #[trigger] rgb9e5_levels(levels, mips@) && container_length(rgb9e5_dfd(), levels)
                <= usize::MAX,
        r matches Some(b) ==> exists|levels: Seq<WriterLevel>|
            #[trigger] rgb9e5_levels(levels, mips@) && b@ == container_bytes(
                cubemap_header(width, height),
                rgb9e5_dfd(),
                levels,
            ),
{
    let mut levels: Vec<WriterLevel> = Vec::new();
    let mut l: usize = 0;
    while l < mips.len()
        invariant
            l <= mips@.len(),
            forall|k: int| 0 <= k < mips@.len() ==> faces_well_formed(#[trigger] mips@[k]@),
            levels@.len() == l,
            forall|j: int| 0 <= j < l ==> #[trigger] is_rgb9e5_level(levels@[j], mips@[j]@),
        decreases mips@.len() - l,
    {
        assert(faces_well_formed(mips@[l as int]@));
        let words = rgb9e5_faces(mips[l].as_slice());
        if words.len() > usize::MAX / 4 {
            assert forall|lv: Seq<WriterLevel>| #[trigger] rgb9e5_levels(lv, mips@) implies false by {
                assert(is_rgb9e5_level(lv[l as int], mips@[l as int]@));
            }
            return None;
        }
        let level = compress_level(words.as_slice());
        levels.push(level);
        l = l + 1;
    }
    let ghost lv = levels@;
    assert(rgb9e5_levels(lv, mips@));
    let r = write_cubemap_levels(width, height, levels);
    proof {
        if r is None {
            assert forall|other: Seq<WriterLevel>| #[trigger] rgb9e5_levels(other, mips@) implies container_length(
                rgb9e5_dfd(),
                other,
            ) > usize::MAX by {
                lemma_rgb9e5_levels_same(lv, other, mips@);
                lemma_container_same(cubemap_header(width, height), rgb9e5_dfd(), lv, other);
            }
        }
    }
    r
}

/// The same pixels but perhaps for their alpha values.
pub open spec fn same_rgb(a: Seq<u32>, b: Seq<u32>) -> bool {
    &&& a.len() == b.len()
    &&& forall|i: int| 0 <= i < a.len() && i % 4 != 3 ==> a[i] == b[i]
}

proof fn lemma_faces_words_same_rgb(f1: Seq<Vec<u32>>, f2: Seq<Vec<u32>>)
    requires
        f1.len() == f2.len(),
        faces_well_formed(f1),
        forall|f: int| 0 <= f < f1.len() ==> same_rgb(#[trigger] f1[f]@, f2[f]@),
    ensures
        faces_words(f1) == faces_words(f2),
    decreases f1.len(),
{
    if f1.len() > 0 {
        let a = f1.last()@;
        let b = f2.last()@;
        assert(same_rgb(f1[f1.len() - 1]@, f2[f1.len() - 1]@));
        assert(a.len() % 4 == 0 || a.len() % 4 == 3);
        assert forall|i: int| 0 <= i < pixel_words(a).len() implies pixel_words(a)[i] == pixel_words(
            b,
        )[i] by {
            assert((4 * i) % 4 == 0 && (4 * i + 1) % 4 == 1 && (4 * i + 2) % 4 == 2);
            assert(a.len() == 4 * (a.len() / 4) + a.len() % 4);
            assert(4 * i + 2 < a.len());
            assert(a[4 * i] == b[4 * i]);
            assert(a[4 * i + 1] == b[4 * i + 1]);
            assert(a[4 * i + 2] == b[4 * i + 2]);
        }
        assert(pixel_words(a) =~= pixel_words(b));
        assert forall|f: int| 0 <= f < f1.drop_last().len() implies same_rgb(
            #[trigger] f1.drop_last()[f]@,
            f2.drop_last()[f]@,
        ) by {
            assert(same_rgb(f1[f]@, f2[f]@));
        }
        assert(faces_well_formed(f1.drop_last()));
        lemma_faces_words_same_rgb(f1.drop_last(), f2.drop_last());
    }
}

/// Alpha never reaches the file: mip levels whose pixels differ at most in
/// their alpha values give the same file.
pub proof fn lemma_alpha_ignored(
    width: u32,
    height: u32,
    m1: Seq<Vec<Vec<u32>>>,
    m2: Seq<Vec<Vec<u32>>>,
    file1: Seq<u8>,
    file2: Seq<u8>,
)
    requires
        m1.len() == m2.len(),
        forall|l: int| 0 <= l < m1.len() ==> faces_well_formed(#[trigger] m1[l]@),
        forall|l: int|
            0 <= l < m1.len() ==> (#[trigger] m1[l])@.len() == m2[l]@.len() && forall|f: int|
                0 <= f < m1[l]@.len() ==> same_rgb(#[trigger] m1[l]@[f]@, m2[l]@[f]@),
        exists|levels: Seq<WriterLevel>|
            #[trigger] rgb9e5_levels(levels, m1) && file1 == container_bytes(
                cubemap_header(width, height),
                rgb9e5_dfd(),
                levels,
            ),
        exists|levels: Seq<WriterLevel>|
            #[trigger] rgb9e5_levels(levels, m2) && file2 == container_bytes(
                cubemap_header(width, height),
                rgb9e5_dfd(),
                levels,
            ),
    ensures
        file1 == file2,
{
    let l1 = choose|levels: Seq<WriterLevel>|
        #[trigger] rgb9e5_levels(levels, m1) && file1 == container_bytes(
            cubemap_header(width, height),
            rgb9e5_dfd(),
            levels,
        );
    let l2 = choose|levels: Seq<WriterLevel>|
        #[trigger] rgb9e5_levels(levels, m2) && file2 == container_bytes(
            cubemap_header(width, height),
            rgb9e5_dfd(),
            levels,
        );
    assert forall|i: int| 0 <= i < l1.len() implies #[trigger] l1[i].bytes@ == l2[i].bytes@
        && l1[i].uncompressed_length == l2[i].uncompressed_length by {
        assert(m1[i]@.len() == m2[i]@.len());
        assert(faces_well_formed(m1[i]@));
        lemma_faces_words_same_rgb(m1[i]@, m2[i]@);
        assert(is_rgb9e5_level(l1[i], m1[i]@));
        assert(is_rgb9e5_level(l2[i], m2[i]@));
    }
    lemma_container_same(cubemap_header(width, height), rgb9e5_dfd(), l1, l2);
}

/// Bytes of `n` successive mip levels from a `w` by `h` base, halving each
/// dimension (rounding down) from one level to the next.
pub open spec fn chain_bytes(w: nat, h: nat, block_size: nat, n: nat) -> nat
    decreases n,
{
    if n == 0 {
        0
    } else {
        w * block_size * h + chain_bytes(w / 2, h / 2, block_size, (n - 1) as nat)
    }
}

/// `w` halved `n` times, rounding down.
pub open spec fn halved(w: nat, n: nat) -> nat
    decreases n,
{
    if n == 0 {
        w
    } else {
        halved(w / 2, (n - 1) as nat)
    }
}

/// Where one mip level of one face lies in an image buffer whose faces are
/// stored one after another, each with its full mip chain.
#[derive(Clone, Copy, Debug, PartialEq, Eq)]
pub struct MipLevelRange {
    pub byte_offset: usize,
    pub byte_length: usize,
    pub width: u32,
    pub height: u32,
}

pub open spec fn mip_level_offset(w: nat, h: nat, bs: nat, count: nat, mip: nat, face: nat) -> nat {
    face * chain_bytes(w, h, bs, count) + chain_bytes(w, h, bs, mip)
}

pub open spec fn mip_level_length(w: nat, h: nat, bs: nat, mip: nat) -> nat {
    halved(w, mip) * bs * halved(h, mip)
}

proof fn lemma_chain_step(w: nat, h: nat, bs: nat, n: nat)
    ensures
        chain_bytes(w, h, bs, n + 1) == chain_bytes(w, h, bs, n) + halved(w, n) * bs * halved(h, n),
    decreases n,
{
    assert(chain_bytes(w, h, bs, n + 1) == w * bs * h + chain_bytes(w / 2, h / 2, bs, n));
    if n > 0 {
        lemma_chain_step(w / 2, h / 2, bs, (n - 1) as nat);
        assert(halved(w, n) == halved(w / 2, (n - 1) as nat));
        assert(halved(h, n) == halved(h / 2, (n - 1) as nat));
    }
}

proof fn lemma_chain_monotone(w: nat, h: nat, bs: nat, a: nat, b: nat)
    requires
        a <= b,
    ensures
        chain_bytes(w, h, bs, a) <= chain_bytes(w, h, bs, b),
    decreases b,
{
    if a < b {
        lemma_chain_monotone(w, h, bs, a, (b - 1) as nat);
        lemma_chain_step(w, h, bs, (b - 1) as nat);
    }
}

proof fn lemma_halved_step(w: nat, n: nat)
    ensures
        halved(w, n + 1) == halved(w, n) / 2,
    decreases n,
{
    assert(halved(w, n + 1) == halved(w / 2, n));
    if n > 0 {
        lemma_halved_step(w / 2, (n - 1) as nat);
    }
}

/// Sum of the first `n` levels, or `None` where it does not fit in `usize`.
fn checked_chain_bytes(width: u32, height: u32, block_size: usize, n: u32) -> (r: Option<usize>)
    ensures
        r is Some <==> chain_bytes(width as nat, height as nat, block_size as nat, n as nat)
            <= usize::MAX,
        r matches Some(v) ==> v == chain_bytes(width as nat, height as nat, block_size as nat, n as nat),
{
    let ghost total = chain_bytes(width as nat, height as nat, block_size as nat, n as nat);
    let mut acc: usize = 0;
    let mut w = width as usize;
    let mut h = height as usize;
    let mut l: u32 = 0;
    while l < n
        invariant
            l <= n,
            w == halved(width as nat, l as nat),
            h == halved(height as nat, l as nat),
            acc == chain_bytes(width as nat, height as nat, block_size as nat, l as nat),
            total == chain_bytes(width as nat, height as nat, block_size as nat, n as nat),
        decreases n - l,
    {
        let ghost term = w * block_size * h;
        proof {
            lemma_chain_step(width as nat, height as nat, block_size as nat, l as nat);
            lemma_chain_monotone(width as nat, height as nat, block_size as nat, (l + 1) as nat, n as nat);
        }
        let size: usize = if w == 0 || h == 0 {
            assert(term == 0) by (nonlinear_arith)
                requires
                    w == 0 || h == 0,
                    term == w * block_size * h,
            ;
            0
        } else {
            match w.checked_mul(block_size) {
                None => {
                    assert(term >= w * block_size) by (nonlinear_arith)
                        requires
                            h >= 1,
                            term == w * block_size * h,
                    ;
                    return None;
                },
                Some(row) => match row.checked_mul(h) {
                    None => return None,
                    Some(x) => x,
                },
            }
        };
        acc = match acc.checked_add(size) {
            Some(x) => x,
            None => return None,
        };
        proof {
            assert(halved(width as nat, l as nat + 1) == halved(width as nat, l as nat) / 2) by {
                lemma_halved_step(width as nat, l as nat);
            }
            assert(halved(height as nat, l as nat + 1) == halved(height as nat, l as nat) / 2) by {
                lemma_halved_step(height as nat, l as nat);
            }
        }
        w = w / 2;
        h = h / 2;
        l = l + 1;
    }
    Some(acc)
}

/// `n` halved `times` times, rounding down.
fn halve_times(n: u32, times: u32) -> (r: u32)
    ensures
        r == halved(n as nat, times as nat),
{
    let mut v = n;
    let mut l: u32 = 0;
    while l < times
        invariant
            l <= times,
            v == halved(n as nat, l as nat),
        decreases times - l,
    {
        proof {
            lemma_halved_step(n as nat, l as nat);
        }
        v = v / 2;
        l = l + 1;
    }
    v
}

/// Locates mip level `mip_level` of face `face` in a buffer that stores the
/// faces one after another, each with its `mip_level_count` levels from the
/// base `width` by `height` down, `block_size` bytes per texel. `None`
/// exactly when the end of that level does not fit in `usize`.
pub fn mip_level_range(
    width: u32,
    height: u32,
    block_size: usize,
    mip_level_count: u32,
    mip_level: u32,
    face: u32,
) -> (r: Option<MipLevelRange>)
    requires
        mip_level <= mip_level_count,
    ensures
        r is Some <==> mip_level_offset(
            width as nat,
            height as nat,
            block_size as nat,
            mip_level_count as nat,
            mip_level as nat,
            face as nat,
        ) + mip_level_length(width as nat, height as nat, block_size as nat, mip_level as nat)
            <= usize::MAX,
        r matches Some(m) ==> {
            &&& m.byte_offset == mip_level_offset(
                width as nat,
                height as nat,
                block_size as nat,
                mip_level_count as nat,
                mip_level as nat,
                face as nat,
            )
            &&& m.byte_length == mip_level_length(
                width as nat,
                height as nat,
                block_size as nat,
                mip_level as nat,
            )
            &&& m.width == halved(width as nat, mip_level as nat)
            &&& m.height == halved(height as nat, mip_level as nat)
        },
{
    let ghost w = width as nat;
    let ghost h = height as nat;
    let ghost bs = block_size as nat;
    let ghost full = chain_bytes(w, h, bs, mip_level_count as nat);
    let ghost part = chain_bytes(w, h, bs, mip_level as nat);
    let ghost len = mip_level_length(w, h, bs, mip_level as nat);
    proof {
        assert(face * full >= 0 && len >= 0) by (nonlinear_arith);
        assert(face >= 1 ==> face * full >= full) by (nonlinear_arith);
    }
    let faces: usize = if face == 0 {
        assert(face * full == 0);
        0
    } else {
        match checked_chain_bytes(width, height, block_size, mip_level_count) {
            None => return None,
            Some(f) => {
                assert(f * face == face * full) by (nonlinear_arith)
                    requires
                        f == full,
                ;
                match f.checked_mul(face as usize) {
                    None => return None,
                    Some(x) => x,
                }
            },
        }
    };
    assert(faces == face * full);
    let before = match checked_chain_bytes(width, height, block_size, mip_level) {
        None => return None,
        Some(p) => p,
    };
    let offset = match faces.checked_add(before) {
        None => return None,
        Some(x) => x,
    };
    let lw = halve_times(width, mip_level);
    let lh = halve_times(height, mip_level);
    let length: usize = if lw == 0 || lh == 0 {
        assert(len == 0) by (nonlinear_arith)
            requires
                lw == 0 || lh == 0,
                len == lw * bs * lh,
        ;
        0
    } else {
        match (lw as usize).checked_mul(block_size) {
            None => {
                assert(len >= lw * bs) by (nonlinear_arith)
                    requires
                        lh >= 1,
                        len == lw * bs * lh,
                ;
                return None;
            },
            Some(row) => match row.checked_mul(lh as usize) {
                None => return None,
                Some(x) => x,
            },
        }
    };
    if offset > usize::MAX - length {
        return None;
    }
    Some(MipLevelRange { byte_offset: offset, byte_length: length, width: lw, height: lh })
}

} // verus!
