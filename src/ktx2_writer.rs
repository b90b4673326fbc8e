//! Writer of KTX2 containers: header, level index, data format descriptor
//! and level payloads, in that order.
use vstd::prelude::*;

verus! {

/// Length of the fixed KTX2 header, its index sub-block included.
pub const HEADER_LENGTH: usize = 80;

/// Length of one entry of the level index table.
pub const LEVEL_INDEX_LENGTH: usize = 24;

/// One mip level, already compressed by the caller.
pub struct WriterLevel {
    pub uncompressed_length: usize,
    pub bytes: Vec<u8>,
}

/// Caller-supplied description of the texture. `format` and
/// `supercompression_scheme` hold the numeric values of the KTX2 enumerants.
#[derive(Clone, Copy, Debug, PartialEq, Eq)]
pub struct Header {
    pub format: Option<u32>,
    pub type_size: u32,
    pub pixel_width: u32,
    pub pixel_height: u32,
    pub pixel_depth: u32,
    pub layer_count: u32,
    pub face_count: u32,
    pub supercompression_scheme: Option<u32>,
}

/// Offsets and lengths of the variable-size sections, as the header records them.
#[derive(Clone, Copy, Debug, PartialEq, Eq)]
pub struct Index {
    pub dfd_byte_offset: u32,
    pub dfd_byte_length: u32,
    pub kvd_byte_offset: u32,
    pub kvd_byte_length: u32,
    pub sgd_byte_offset: u64,
    pub sgd_byte_length: u64,
}

pub struct KTX2Writer<'a> {
    pub header: Header,
    pub dfd_bytes: &'a [u8],
    /// Levels from the highest resolution to the lowest.
    pub levels_descending: Vec<WriterLevel>,
}

/// The `n` low bytes of `x`, least significant first.
pub open spec fn le_bytes(x: nat, n: nat) -> Seq<u8>
    decreases n,
{
    if n == 0 {
        seq![]
    } else {
        seq![(x % 256) as u8] + le_bytes(x / 256, (n - 1) as nat)
    }
}

pub open spec fn ktx2_magic() -> Seq<u8> {
    seq![0xABu8, 0x4B, 0x54, 0x58, 0x20, 0x32, 0x30, 0xBB, 0x0D, 0x0A, 0x1A, 0x0A]
}

pub open spec fn enumerant_value(v: Option<u32>) -> nat {
    match v {
        Some(x) => x as nat,
        None => 0,
    }
}

/// The 80 header bytes: the magic, then every field little-endian.
pub open spec fn header_layout(h: Header, level_count: u32, index: Index) -> Seq<u8> {
    ktx2_magic() + le_bytes(enumerant_value(h.format), 4) + le_bytes(h.type_size as nat, 4)
        + le_bytes(h.pixel_width as nat, 4) + le_bytes(h.pixel_height as nat, 4) + le_bytes(
        h.pixel_depth as nat,
        4,
    ) + le_bytes(h.layer_count as nat, 4) + le_bytes(h.face_count as nat, 4) + le_bytes(
        level_count as nat,
        4,
    ) + le_bytes(enumerant_value(h.supercompression_scheme), 4) + le_bytes(
        index.dfd_byte_offset as nat,
        4,
    ) + le_bytes(index.dfd_byte_length as nat, 4) + le_bytes(index.kvd_byte_offset as nat, 4)
        + le_bytes(index.kvd_byte_length as nat, 4) + le_bytes(index.sgd_byte_offset as nat, 8)
        + le_bytes(index.sgd_byte_length as nat, 8)
}

/// One level index entry: offset, length and uncompressed length, each as 8 bytes.
pub open spec fn level_index_layout(byte_offset: nat, byte_length: nat, uncompressed: nat) -> Seq<
    u8,
> {
    le_bytes(byte_offset, 8) + le_bytes(byte_length, 8) + le_bytes(uncompressed, 8)
}

pub proof fn lemma_le_bytes_len(x: nat, n: nat)
    ensures
        le_bytes(x, n).len() == n,
    decreases n,
{
    if n > 0 {
        lemma_le_bytes_len(x / 256, (n - 1) as nat);
    }
}

proof fn lemma_header_layout_len(h: Header, level_count: u32, index: Index)
    ensures
        header_layout(h, level_count, index).len() == HEADER_LENGTH,
{
    lemma_le_bytes_len(enumerant_value(h.format), 4);
    lemma_le_bytes_len(h.type_size as nat, 4);
    lemma_le_bytes_len(h.pixel_width as nat, 4);
    lemma_le_bytes_len(h.pixel_height as nat, 4);
    lemma_le_bytes_len(h.pixel_depth as nat, 4);
    lemma_le_bytes_len(h.layer_count as nat, 4);
    lemma_le_bytes_len(h.face_count as nat, 4);
    lemma_le_bytes_len(level_count as nat, 4);
    lemma_le_bytes_len(enumerant_value(h.supercompression_scheme), 4);
    lemma_le_bytes_len(index.dfd_byte_offset as nat, 4);
    lemma_le_bytes_len(index.dfd_byte_length as nat, 4);
    lemma_le_bytes_len(index.kvd_byte_offset as nat, 4);
    lemma_le_bytes_len(index.kvd_byte_length as nat, 4);
    lemma_le_bytes_len(index.sgd_byte_offset as nat, 8);
    lemma_le_bytes_len(index.sgd_byte_length as nat, 8);
}

/// Where the level count, the descriptor offset and its length stand in the header.
proof fn lemma_header_fields(h: Header, level_count: u32, index: Index)
    ensures
        header_layout(h, level_count, index).subrange(40, 44) == le_bytes(level_count as nat, 4),
        header_layout(h, level_count, index).subrange(48, 52) == le_bytes(
            index.dfd_byte_offset as nat,
            4,
        ),
        header_layout(h, level_count, index).subrange(52, 56) == le_bytes(
            index.dfd_byte_length as nat,
            4,
        ),
{
    lemma_header_layout_len(h, level_count, index);
    lemma_le_bytes_len(enumerant_value(h.format), 4);
    lemma_le_bytes_len(h.type_size as nat, 4);
    lemma_le_bytes_len(h.pixel_width as nat, 4);
    lemma_le_bytes_len(h.pixel_height as nat, 4);
    lemma_le_bytes_len(h.pixel_depth as nat, 4);
    lemma_le_bytes_len(h.layer_count as nat, 4);
    lemma_le_bytes_len(h.face_count as nat, 4);
    lemma_le_bytes_len(level_count as nat, 4);
    lemma_le_bytes_len(enumerant_value(h.supercompression_scheme), 4);
    lemma_le_bytes_len(index.dfd_byte_offset as nat, 4);
    lemma_le_bytes_len(index.dfd_byte_length as nat, 4);
    let hl = header_layout(h, level_count, index);
    let a = ktx2_magic() + le_bytes(enumerant_value(h.format), 4) + le_bytes(h.type_size as nat, 4)
        + le_bytes(h.pixel_width as nat, 4) + le_bytes(h.pixel_height as nat, 4) + le_bytes(
        h.pixel_depth as nat,
        4,
    ) + le_bytes(h.layer_count as nat, 4) + le_bytes(h.face_count as nat, 4);
    let b = a + le_bytes(level_count as nat, 4) + le_bytes(
        enumerant_value(h.supercompression_scheme),
        4,
    );
    let c = b + le_bytes(index.dfd_byte_offset as nat, 4);
    assert(a.len() == 40);
    assert(c.len() == 52);
    assert(hl.subrange(40, 44) =~= le_bytes(level_count as nat, 4));
    assert(hl.subrange(48, 52) =~= le_bytes(index.dfd_byte_offset as nat, 4));
    assert(hl.subrange(52, 56) =~= le_bytes(index.dfd_byte_length as nat, 4));
}

proof fn lemma_level_index_layout_len(a: nat, b: nat, c: nat)
    ensures
        level_index_layout(a, b, c).len() == LEVEL_INDEX_LENGTH,
{
    lemma_le_bytes_len(a, 8);
    lemma_le_bytes_len(b, 8);
    lemma_le_bytes_len(c, 8);
}

/// Relies on ktx2::Header::as_bytes: the magic followed by every header
/// field little-endian, 80 bytes in all; absent enumerants are written as 0.
#[verifier::external_body]
fn ktx2_header_bytes(h: &Header, level_count: u32, index: &Index) -> (r: Vec<u8>)
    ensures
        r@ == header_layout(*h, level_count, *index),
{
    ktx2::Header {
        format: h.format.and_then(ktx2::Format::new),
        type_size: h.type_size, pixel_width: h.pixel_width, pixel_height: h.pixel_height,
        pixel_depth: h.pixel_depth, layer_count: h.layer_count, face_count: h.face_count,
        level_count,
        supercompression_scheme: h.supercompression_scheme.and_then(ktx2::SupercompressionScheme::new),
        index: ktx2::Index {
            dfd_byte_offset: index.dfd_byte_offset, dfd_byte_length: index.dfd_byte_length,
            kvd_byte_offset: index.kvd_byte_offset, kvd_byte_length: index.kvd_byte_length,
            sgd_byte_offset: index.sgd_byte_offset, sgd_byte_length: index.sgd_byte_length,
        },
    }.as_bytes().to_vec()
}

/// Relies on ktx2::LevelIndex::as_bytes: the three fields, each as 8
/// little-endian bytes, in declaration order.
#[verifier::external_body]
fn ktx2_level_index_bytes(byte_offset: u64, byte_length: u64, uncompressed_byte_length: u64) -> (r:
    Vec<u8>)
    ensures
        r@ == level_index_layout(byte_offset as nat, byte_length as nat, uncompressed_byte_length as nat),
{
    ktx2::LevelIndex { byte_offset, byte_length, uncompressed_byte_length }.as_bytes().to_vec()
}

/// Appends `src` to `out`.
pub fn append_bytes(out: &mut Vec<u8>, src: &[u8])
    requires
        old(out)@.len() + src@.len() <= usize::MAX,
    ensures
        final(out)@ == old(out)@ + src@,
{
    let mut i: usize = 0;
    while i < src.len()
        invariant
            i <= src@.len(),
            out@ == old(out)@ + src@.subrange(0, i as int),
            old(out)@.len() + src@.len() <= usize::MAX,
        decreases src@.len() - i,
    {
        out.push(src[i]);
        i = i + 1;
        assert(src@.subrange(0, i as int) =~= src@.subrange(0, i - 1) + seq![src@[i - 1]]);
    }
    assert(src@.subrange(0, i as int) =~= src@);
}

/// The payload region: the levels' bytes, the last level first.
pub open spec fn payload(levels: Seq<WriterLevel>) -> Seq<u8>
    decreases levels.len(),
{
    if levels.len() == 0 {
        seq![]
    } else {
        payload(levels.drop_first()) + levels[0].bytes@
    }
}

pub proof fn lemma_payload_step(levels: Seq<WriterLevel>, i: int)
    requires
        0 <= i < levels.len(),
    ensures
        payload(levels.subrange(i, levels.len() as int)) == payload(
            levels.subrange(i + 1, levels.len() as int),
        ) + levels[i].bytes@,
{
    let s = levels.subrange(i, levels.len() as int);
    assert(s.drop_first() =~= levels.subrange(i + 1, levels.len() as int));
}

/// The payload of the levels from `i` on is a prefix of the whole payload.
pub proof fn lemma_payload_prefix(levels: Seq<WriterLevel>, i: int)
    requires
        0 <= i <= levels.len(),
    ensures
        payload(levels).len() >= payload(levels.subrange(i, levels.len() as int)).len(),
        payload(levels).subrange(0, payload(levels.subrange(i, levels.len() as int)).len() as int)
            == payload(levels.subrange(i, levels.len() as int)),
    decreases i,
{
    let n = levels.len() as int;
    if i == 0 {
        assert(levels.subrange(0, n) =~= levels);
        assert(payload(levels).subrange(0, payload(levels).len() as int) =~= payload(levels));
    } else {
        lemma_payload_prefix(levels, i - 1);
        lemma_payload_step(levels, i - 1);
        let a = payload(levels.subrange(i, n));
        let b = payload(levels.subrange(i - 1, n));
        assert(b.subrange(0, a.len() as int) =~= a);
        assert(payload(levels).subrange(0, a.len() as int) =~= b.subrange(0, a.len() as int));
    }
}

/// Where the data format descriptor starts: right after the level index table.
pub open spec fn dfd_offset(level_count: nat) -> nat {
    (HEADER_LENGTH + level_count * LEVEL_INDEX_LENGTH) as nat
}

/// Where the payload region starts.
pub open spec fn payload_offset(dfd: Seq<u8>, levels: Seq<WriterLevel>) -> nat {
    dfd_offset(levels.len()) + dfd.len()
}

/// Offset of level `i`: the levels after it are stored before it.
pub open spec fn level_offset(dfd: Seq<u8>, levels: Seq<WriterLevel>, i: int) -> nat {
    payload_offset(dfd, levels) + payload(levels.subrange(i + 1, levels.len() as int)).len()
}

pub open spec fn level_length(levels: Seq<WriterLevel>, i: int) -> nat {
    levels[i].bytes@.len()
}

pub open spec fn level_entry(dfd: Seq<u8>, levels: Seq<WriterLevel>, i: int) -> Seq<u8> {
    level_index_layout(
        level_offset(dfd, levels, i),
        level_length(levels, i),
        levels[i].uncompressed_length as nat,
    )
}

/// The first `k` entries of the level index table, in the caller's order.
pub open spec fn index_table(dfd: Seq<u8>, levels: Seq<WriterLevel>, k: nat) -> Seq<u8>
    decreases k,
{
    if k == 0 {
        seq![]
    } else {
        index_table(dfd, levels, (k - 1) as nat) + level_entry(dfd, levels, k - 1)
    }
}

pub proof fn lemma_index_table_len(dfd: Seq<u8>, levels: Seq<WriterLevel>, k: nat)
    ensures
        index_table(dfd, levels, k).len() == k * LEVEL_INDEX_LENGTH,
    decreases k,
{
    if k > 0 {
        lemma_index_table_len(dfd, levels, (k - 1) as nat);
        lemma_level_index_layout_len(
            level_offset(dfd, levels, k - 1),
            level_length(levels, k - 1),
            levels[k - 1].uncompressed_length as nat,
        );
    }
}

/// The header as written: the type size is 1 whenever a supercompression
/// scheme is set.
pub open spec fn written_header(h: Header) -> Header {
    Header {
        type_size: if h.supercompression_scheme is Some {
            1
        } else {
            h.type_size
        },
        ..h
    }
}

/// The section index as written: no key/value data and no supercompression
/// global data.
pub open spec fn written_index(dfd: Seq<u8>, level_count: nat) -> Index {
    Index {
        dfd_byte_offset: dfd_offset(level_count) as u32,
        dfd_byte_length: dfd.len() as u32,
        kvd_byte_offset: 0,
        kvd_byte_length: 0,
        sgd_byte_offset: 0,
        sgd_byte_length: 0,
    }
}

/// The whole file.
pub open spec fn container_bytes(h: Header, dfd: Seq<u8>, levels: Seq<WriterLevel>) -> Seq<u8> {
    header_layout(written_header(h), levels.len() as u32, written_index(dfd, levels.len()))
        + index_table(dfd, levels, levels.len()) + dfd + payload(levels)
}

pub open spec fn container_length(dfd: Seq<u8>, levels: Seq<WriterLevel>) -> nat {
    payload_offset(dfd, levels) + payload(levels).len()
}

proof fn lemma_index_table_entry(dfd: Seq<u8>, levels: Seq<WriterLevel>, k: nat, i: int)
    requires
        0 <= i < k,
    ensures
        index_table(dfd, levels, k).subrange(
            i * LEVEL_INDEX_LENGTH,
            (i + 1) * LEVEL_INDEX_LENGTH,
        ) == level_entry(dfd, levels, i),
    decreases k,
{
    lemma_index_table_len(dfd, levels, (k - 1) as nat);
    lemma_level_index_layout_len(
        level_offset(dfd, levels, k - 1),
        level_length(levels, k - 1),
        levels[k - 1].uncompressed_length as nat,
    );
    let t = index_table(dfd, levels, (k - 1) as nat);
    if i < k - 1 {
        lemma_index_table_entry(dfd, levels, (k - 1) as nat, i);
        assert(i * LEVEL_INDEX_LENGTH + LEVEL_INDEX_LENGTH <= t.len()) by (nonlinear_arith)
            requires
                i < k - 1,
                t.len() == (k - 1) * LEVEL_INDEX_LENGTH,
        ;
        assert(index_table(dfd, levels, k).subrange(i * LEVEL_INDEX_LENGTH, (i + 1) * LEVEL_INDEX_LENGTH)
            =~= t.subrange(i * LEVEL_INDEX_LENGTH, (i + 1) * LEVEL_INDEX_LENGTH));
    } else {
        assert(index_table(dfd, levels, k).subrange(i * LEVEL_INDEX_LENGTH, (i + 1) * LEVEL_INDEX_LENGTH)
            =~= level_entry(dfd, levels, i));
    }
}

/// Layout of a container with at least one level: the data format
/// descriptor follows the level index table directly; entry `i` of the table
/// describes level `i`, in the caller's order; the level byte ranges are
/// contiguous, stored last level first, and together cover the file from the
/// end of the descriptor to its end, each holding its level's bytes.
pub proof fn lemma_container_layout(h: Header, dfd: Seq<u8>, levels: Seq<WriterLevel>)
    requires
        levels.len() > 0,
    ensures
        container_bytes(h, dfd, levels).len() == container_length(dfd, levels),
        dfd_offset(levels.len()) == HEADER_LENGTH + levels.len() * LEVEL_INDEX_LENGTH,
        container_bytes(h, dfd, levels).subrange(48, 52) == le_bytes(
            dfd_offset(levels.len()) as u32 as nat,
            4,
        ),
        container_bytes(h, dfd, levels).subrange(52, 56) == le_bytes(dfd.len() as u32 as nat, 4),
        dfd_offset(levels.len()) <= u32::MAX ==> container_bytes(h, dfd, levels).subrange(48, 52)
            == le_bytes(dfd_offset(levels.len()), 4),
        dfd.len() <= u32::MAX ==> container_bytes(h, dfd, levels).subrange(52, 56) == le_bytes(
            dfd.len(),
            4,
        ),
        written_index(dfd, levels.len()).dfd_byte_offset == dfd_offset(levels.len()) as u32,
        container_bytes(h, dfd, levels).subrange(
            dfd_offset(levels.len()) as int,
            payload_offset(dfd, levels) as int,
        ) == dfd,
        forall|i: int|
            0 <= i < levels.len() ==> container_bytes(h, dfd, levels).subrange(
                HEADER_LENGTH + i * LEVEL_INDEX_LENGTH,
                HEADER_LENGTH + (i + 1) * LEVEL_INDEX_LENGTH,
            ) == #[trigger] level_entry(dfd, levels, i),
        level_offset(dfd, levels, levels.len() - 1) == payload_offset(dfd, levels),
        forall|i: int|
            0 <= i < levels.len() - 1 ==> #[trigger] level_offset(dfd, levels, i) == level_offset(
                dfd,
                levels,
                i + 1,
            ) + level_length(levels, i + 1),
        level_offset(dfd, levels, 0) + level_length(levels, 0) == container_length(dfd, levels),
        forall|i: int|
            0 <= i < levels.len() ==> container_bytes(h, dfd, levels).subrange(
                #[trigger] level_offset(dfd, levels, i) as int,
                (level_offset(dfd, levels, i) + level_length(levels, i)) as int,
            ) == levels[i].bytes@,
{
    let n = levels.len();
    let f = container_bytes(h, dfd, levels);
    let hd = header_layout(written_header(h), n as u32, written_index(dfd, n));
    let t = index_table(dfd, levels, n);
    let p = payload(levels);
    lemma_header_layout_len(written_header(h), n as u32, written_index(dfd, n));
    lemma_index_table_len(dfd, levels, n);
    assert(f == hd + t + dfd + p);
    lemma_header_fields(written_header(h), n as u32, written_index(dfd, n));
    assert(f.subrange(48, 52) =~= hd.subrange(48, 52));
    assert(f.subrange(52, 56) =~= hd.subrange(52, 56));
    assert(f.subrange(dfd_offset(n) as int, payload_offset(dfd, levels) as int) =~= dfd);
    assert forall|i: int| 0 <= i < n implies f.subrange(
        HEADER_LENGTH + i * LEVEL_INDEX_LENGTH,
        HEADER_LENGTH + (i + 1) * LEVEL_INDEX_LENGTH,
    ) == #[trigger] level_entry(dfd, levels, i) by {
        lemma_index_table_entry(dfd, levels, n, i);
        assert((i + 1) * LEVEL_INDEX_LENGTH <= n * LEVEL_INDEX_LENGTH) by (nonlinear_arith)
            requires
                i < n,
        ;
        assert((i + 1) * LEVEL_INDEX_LENGTH == i * LEVEL_INDEX_LENGTH + LEVEL_INDEX_LENGTH);
        assert(f.subrange(HEADER_LENGTH + i * LEVEL_INDEX_LENGTH, HEADER_LENGTH + (i + 1)
            * LEVEL_INDEX_LENGTH) =~= t.subrange(i * LEVEL_INDEX_LENGTH, (i + 1)
            * LEVEL_INDEX_LENGTH));
    }
    assert(levels.subrange(n as int, n as int) =~= Seq::<WriterLevel>::empty());
    assert forall|i: int| 0 <= i < n - 1 implies #[trigger] level_offset(dfd, levels, i)
        == level_offset(dfd, levels, i + 1) + level_length(levels, i + 1) by {
        lemma_payload_step(levels, i + 1);
    }
    lemma_payload_step(levels, 0);
    assert(levels.subrange(0, n as int) =~= levels);
    assert forall|i: int| 0 <= i < n implies f.subrange(
        #[trigger] level_offset(dfd, levels, i) as int,
        (level_offset(dfd, levels, i) + level_length(levels, i)) as int,
    ) == levels[i].bytes@ by {
        lemma_payload_step(levels, i);
        lemma_payload_prefix(levels, i);
        let a = payload(levels.subrange(i + 1, n as int)).len();
        let b = payload(levels.subrange(i, n as int));
        assert(p.subrange(0, b.len() as int) == b);
        assert(f.subrange(level_offset(dfd, levels, i) as int, (level_offset(dfd, levels, i)
            + level_length(levels, i)) as int) =~= p.subrange(a as int, b.len() as int));
        assert(p.subrange(a as int, b.len() as int) =~= b.subrange(a as int, b.len() as int));
        assert(b.subrange(a as int, b.len() as int) =~= levels[i].bytes@);
    }
}

/// With no levels the file is the header, recording a level count of 0,
/// followed directly by the data format descriptor: no index entries and no
/// payload.
pub proof fn lemma_empty_container(h: Header, dfd: Seq<u8>)
    ensures
        container_bytes(h, dfd, Seq::<WriterLevel>::empty()) == header_layout(
            written_header(h),
            0,
            written_index(dfd, 0),
        ) + dfd,
        dfd_offset(0) == HEADER_LENGTH,
        container_length(dfd, Seq::<WriterLevel>::empty()) == HEADER_LENGTH + dfd.len(),
        container_bytes(h, dfd, Seq::<WriterLevel>::empty()).len() == HEADER_LENGTH + dfd.len(),
        container_bytes(h, dfd, Seq::<WriterLevel>::empty()).subrange(40, 44) == le_bytes(0, 4),
        container_bytes(h, dfd, Seq::<WriterLevel>::empty()).subrange(48, 52) == le_bytes(
            HEADER_LENGTH as nat,
            4,
        ),
        dfd.len() <= u32::MAX ==> container_bytes(h, dfd, Seq::<WriterLevel>::empty()).subrange(
            52,
            56,
        ) == le_bytes(dfd.len(), 4),
        container_bytes(h, dfd, Seq::<WriterLevel>::empty()).subrange(
            HEADER_LENGTH as int,
            HEADER_LENGTH + dfd.len(),
        ) == dfd,
{
    let e = Seq::<WriterLevel>::empty();
    let hd = header_layout(written_header(h), 0, written_index(dfd, 0));
    lemma_header_fields(written_header(h), 0, written_index(dfd, 0));
    lemma_header_layout_len(written_header(h), 0, written_index(dfd, 0));
    assert(index_table(dfd, e, 0) =~= Seq::<u8>::empty());
    assert(payload(e) =~= Seq::<u8>::empty());
    assert(container_bytes(h, dfd, e) =~= header_layout(written_header(h), 0, written_index(dfd, 0))
        + dfd);
    let f = container_bytes(h, dfd, e);
    assert(f.subrange(40, 44) =~= hd.subrange(40, 44));
    assert(f.subrange(48, 52) =~= hd.subrange(48, 52));
    assert(f.subrange(52, 56) =~= hd.subrange(52, 56));
    assert(f.subrange(HEADER_LENGTH as int, HEADER_LENGTH + dfd.len()) =~= dfd);
}

/// Two level lists with the same bytes and uncompressed lengths, level by level.
pub open spec fn same_levels(l1: Seq<WriterLevel>, l2: Seq<WriterLevel>) -> bool {
    &&& l1.len() == l2.len()
    &&& forall|i: int|
        0 <= i < l1.len() ==> #[trigger] l1[i].bytes@ == l2[i].bytes@ && l1[i].uncompressed_length
            == l2[i].uncompressed_length
}

proof fn lemma_payload_same(l1: Seq<WriterLevel>, l2: Seq<WriterLevel>)
    requires
        same_levels(l1, l2),
    ensures
        payload(l1) == payload(l2),
    decreases l1.len(),
{
    if l1.len() > 0 {
        assert(l1[0].bytes@ == l2[0].bytes@);
        assert forall|i: int| 0 <= i < l1.drop_first().len() implies #[trigger] l1.drop_first()[i].bytes@
            == l2.drop_first()[i].bytes@ && l1.drop_first()[i].uncompressed_length
            == l2.drop_first()[i].uncompressed_length by {
            assert(l1[i + 1].bytes@ == l2[i + 1].bytes@);
        }
        lemma_payload_same(l1.drop_first(), l2.drop_first());
    }
}

proof fn lemma_suffix_same(l1: Seq<WriterLevel>, l2: Seq<WriterLevel>, k: int)
    requires
        same_levels(l1, l2),
        0 <= k <= l1.len(),
    ensures
        payload(l1.subrange(k, l1.len() as int)) == payload(l2.subrange(k, l2.len() as int)),
{
    let s1 = l1.subrange(k, l1.len() as int);
    let s2 = l2.subrange(k, l2.len() as int);
    assert forall|i: int| 0 <= i < s1.len() implies #[trigger] s1[i].bytes@ == s2[i].bytes@
        && s1[i].uncompressed_length == s2[i].uncompressed_length by {
        assert(l1[i + k].bytes@ == l2[i + k].bytes@);
    }
    lemma_payload_same(s1, s2);
}

proof fn lemma_index_table_same(dfd: Seq<u8>, l1: Seq<WriterLevel>, l2: Seq<WriterLevel>, k: nat)
    requires
        same_levels(l1, l2),
        k <= l1.len(),
    ensures
        index_table(dfd, l1, k) == index_table(dfd, l2, k),
    decreases k,
{
    if k > 0 {
        lemma_index_table_same(dfd, l1, l2, (k - 1) as nat);
        lemma_suffix_same(l1, l2, k as int);
        assert(l1[k - 1].bytes@ == l2[k - 1].bytes@);
        assert(level_entry(dfd, l1, k - 1) == level_entry(dfd, l2, k - 1));
    }
}

/// The file depends on the levels only through their bytes and
/// uncompressed lengths.
pub proof fn lemma_container_same(h: Header, dfd: Seq<u8>, l1: Seq<WriterLevel>, l2: Seq<WriterLevel>)
    requires
        same_levels(l1, l2),
    ensures
        container_bytes(h, dfd, l1) == container_bytes(h, dfd, l2),
        container_length(dfd, l1) == container_length(dfd, l2),
{
    lemma_payload_same(l1, l2);
    lemma_index_table_same(dfd, l1, l2, l1.len());
}

impl<'a> KTX2Writer<'a> {
    /// Emits the container. The level index lists the levels in the caller's
    /// order; their bytes are stored in the reverse order, lowest resolution
    /// first.
    pub fn write(&self) -> (r: Vec<u8>)
        requires
            container_length(self.dfd_bytes@, self.levels_descending@) <= usize::MAX,
        ensures
            r@ == container_bytes(self.header, self.dfd_bytes@, self.levels_descending@),
    {
        let n = self.levels_descending.len();
        let ghost levels = self.levels_descending@;
        let ghost dfd = self.dfd_bytes@;
        proof {
            lemma_payload_prefix(levels, 0);
            assert(levels.subrange(n as int, n as int).len() == 0);
        }
        let dfd_offset = HEADER_LENGTH + n * LEVEL_INDEX_LENGTH;
        let header = Header {
            type_size: if self.header.supercompression_scheme.is_some() {
                1
            } else {
                self.header.type_size
            },
            ..self.header
        };
        let index = Index {
            dfd_byte_offset: dfd_offset as u32,
            dfd_byte_length: self.dfd_bytes.len() as u32,
            kvd_byte_offset: 0,
            kvd_byte_length: 0,
            sgd_byte_offset: 0,
            sgd_byte_length: 0,
        };
        let mut out = ktx2_header_bytes(&header, n as u32, &index);
        assert(header == written_header(self.header));
        // Offsets, from the lowest resolution level up.
        let mut offsets_ascending: Vec<usize> = Vec::new();
        let mut offset = dfd_offset + self.dfd_bytes.len();
        let mut i = n;
        while i > 0
            invariant
                i <= n,
                n == levels.len(),
                levels == self.levels_descending@,
                container_length(dfd, levels) <= usize::MAX,
                offset == payload_offset(dfd, levels) + payload(levels.subrange(i as int, n as int)).len(),
                offsets_ascending@.len() == n - i,
                forall|j: int|
                    i <= j < n ==> #[trigger] offsets_ascending@[n - 1 - j] == level_offset(dfd, levels, j),
            decreases i,
        {
            proof {
                lemma_payload_step(levels, i - 1);
                lemma_payload_prefix(levels, i - 1);
            }
            offsets_ascending.push(offset);
            offset = offset + self.levels_descending[i - 1].bytes.len();
            i = i - 1;
        }
        // The index table, from the highest resolution level down.
        let mut k: usize = 0;
        while k < n
            invariant
                k <= n,
                n == levels.len(),
                levels == self.levels_descending@,
                offsets_ascending@.len() == n,
                forall|j: int| 0 <= j < n ==> #[trigger] offsets_ascending@[n - 1 - j] == level_offset(dfd, levels, j),
                out@ == header_layout(written_header(self.header), n as u32, written_index(dfd, n as nat))
                    + index_table(dfd, levels, k as nat),
            decreases n - k,
        {
            let level = &self.levels_descending[k];
            let entry = ktx2_level_index_bytes(
                offsets_ascending[n - 1 - k] as u64,
                level.bytes.len() as u64,
                level.uncompressed_length as u64,
            );
            assert(offsets_ascending@[n - 1 - k as int] == level_offset(dfd, levels, k as int));
            assert(entry@ == level_entry(dfd, levels, k as int));
            proof {
                lemma_header_layout_len(written_header(self.header), n as u32, written_index(dfd, n as nat));
                lemma_index_table_len(dfd, levels, k as nat);
                lemma_index_table_len(dfd, levels, k as nat + 1);
            }
            append_bytes(&mut out, entry.as_slice());
            k = k + 1;
        }
        proof {
            lemma_header_layout_len(written_header(self.header), n as u32, written_index(dfd, n as nat));
            lemma_index_table_len(dfd, levels, n as nat);
        }
        append_bytes(&mut out, self.dfd_bytes);
        let ghost prefix = out@;
        // The payloads, from the lowest resolution level up.
        let mut j = n;
        while j > 0
            invariant
                j <= n,
                n == levels.len(),
                levels == self.levels_descending@,
                container_length(dfd, levels) <= usize::MAX,
                prefix.len() == payload_offset(dfd, levels),
                out@ == prefix + payload(levels.subrange(j as int, n as int)),
            decreases j,
        {
            proof {
                lemma_payload_step(levels, j - 1);
                lemma_payload_prefix(levels, j - 1);
            }
            append_bytes(&mut out, self.levels_descending[j - 1].bytes.as_slice());
            j = j - 1;
        }
        assert(levels.subrange(0, n as int) =~= levels);
        out
    }
}

} // verus!
