use envmap_tools::ktx2_writer::{Header, KTX2Writer, WriterLevel, HEADER_LENGTH, LEVEL_INDEX_LENGTH};
use envmap_tools::rgb9e5::float3_to_rgb9e5;
use envmap_tools::{
    compress_level, mip_level_range, rgb9e5_faces, rgb9e5_pixels, u32_to_bytes,
    write_cubemap_levels, write_ktx2,
    FORMAT_E5B9G9R9_UFLOAT_PACK32, SUPERCOMPRESSION_ZSTANDARD,
};

const MAGIC: [u8; 12] = [0xAB, 0x4B, 0x54, 0x58, 0x20, 0x32, 0x30, 0xBB, 0x0D, 0x0A, 0x1A, 0x0A];

fn u32_at(b: &[u8], at: usize) -> u32 {
    u32::from_le_bytes(b[at..at + 4].try_into().unwrap())
}

fn u64_at(b: &[u8], at: usize) -> u64 {
    u64::from_le_bytes(b[at..at + 8].try_into().unwrap())
}

fn header(scheme: Option<u32>) -> Header {
    Header {
        format: Some(FORMAT_E5B9G9R9_UFLOAT_PACK32),
        type_size: 4,
        pixel_width: 2,
        pixel_height: 2,
        pixel_depth: 1,
        layer_count: 1,
        face_count: 1,
        supercompression_scheme: scheme,
    }
}

#[test]
fn two_levels_layout() {
    let dfd = [1u8, 2, 3, 4];
    let w = KTX2Writer {
        header: header(None),
        dfd_bytes: &dfd,
        levels_descending: vec![
            WriterLevel { uncompressed_length: 5, bytes: vec![10, 11, 12] },
            WriterLevel { uncompressed_length: 2, bytes: vec![20] },
        ],
    };
    let f = w.write();
    assert_eq!(f.len(), 80 + 2 * 24 + 4 + 3 + 1);
    assert_eq!(&f[0..12], &MAGIC);
    assert_eq!(u32_at(&f, 12), 123);
    assert_eq!(u32_at(&f, 16), 4);
    assert_eq!(u32_at(&f, 40), 2);
    assert_eq!(u32_at(&f, 44), 0);
    assert_eq!(u32_at(&f, 48), 128);
    assert_eq!(u32_at(&f, 52), 4);
    assert_eq!(u32_at(&f, 56), 0);
    assert_eq!(u32_at(&f, 60), 0);
    assert_eq!(u64_at(&f, 64), 0);
    assert_eq!(u64_at(&f, 72), 0);
    // entry 0 describes level 0, stored last
    assert_eq!(u64_at(&f, 80), 133);
    assert_eq!(u64_at(&f, 88), 3);
    assert_eq!(u64_at(&f, 96), 5);
    // entry 1 describes level 1, stored first
    assert_eq!(u64_at(&f, 104), 132);
    assert_eq!(u64_at(&f, 112), 1);
    assert_eq!(u64_at(&f, 120), 2);
    assert_eq!(&f[128..132], &dfd);
    assert_eq!(&f[132..], &[20, 10, 11, 12]);
}

#[test]
fn supercompression_forces_type_size_one() {
    let dfd = [0u8; 12];
    let w = KTX2Writer {
        header: header(Some(SUPERCOMPRESSION_ZSTANDARD)),
        dfd_bytes: &dfd,
        levels_descending: vec![WriterLevel { uncompressed_length: 4, bytes: vec![9, 9] }],
    };
    let f = w.write();
    assert_eq!(u32_at(&f, 16), 1);
    assert_eq!(u32_at(&f, 44), 2);
}

#[test]
fn empty_level_list() {
    let dfd = [7u8, 8, 9];
    let w = KTX2Writer { header: header(None), dfd_bytes: &dfd, levels_descending: vec![] };
    let f = w.write();
    assert_eq!(f.len(), HEADER_LENGTH + 3);
    assert_eq!(u32_at(&f, 40), 0);
    assert_eq!(u32_at(&f, 48), HEADER_LENGTH as u32);
    assert_eq!(u32_at(&f, 52), 3);
    assert_eq!(&f[80..], &dfd);
}

#[test]
fn end_to_end_two_levels() {
    let mut px = Vec::new();
    for _ in 0..4 {
        px.extend([1.0f32.to_bits(), 0.5f32.to_bits(), 0.25f32.to_bits(), 1.0f32.to_bits()]);
    }
    let level0 = u32_to_bytes(&rgb9e5_pixels(&px));
    let zero = [0.0f32.to_bits(); 4];
    let level1 = u32_to_bytes(&rgb9e5_pixels(&zero));
    assert_eq!(level0.len(), 16);
    assert_eq!(level1, vec![0, 0, 0, 0]);
    let word = float3_to_rgb9e5(&[1.0f32.to_bits(), 0.5f32.to_bits(), 0.25f32.to_bits()]);
    assert_eq!(&level0[0..4], &word.to_le_bytes());
    let dfd = u32_to_bytes(&[0, 0, 2]);
    let w = KTX2Writer {
        header: header(None),
        dfd_bytes: &dfd,
        levels_descending: vec![
            WriterLevel { uncompressed_length: 16, bytes: level0.clone() },
            WriterLevel { uncompressed_length: 4, bytes: level1.clone() },
        ],
    };
    let f = w.write();
    let payload = HEADER_LENGTH + 2 * LEVEL_INDEX_LENGTH + dfd.len();
    assert_eq!(f.len(), payload + 16 + 4);
    assert_eq!(&f[payload..payload + 4], &level1[..]);
    assert_eq!(&f[payload + 4..], &level0[..]);
    assert_eq!(u64_at(&f, 80), (payload + 4) as u64);
    assert_eq!(u64_at(&f, 104), payload as u64);
}

#[test]
fn compressed_level_round_trips() {
    let words = vec![0x1234_5678u32; 64];
    let level = compress_level(&words);
    assert_eq!(level.uncompressed_length, 256);
    assert_ne!(level.bytes, u32_to_bytes(&words));
    let back = zstd::bulk::decompress(&level.bytes, 1024).unwrap();
    assert_eq!(back, u32_to_bytes(&words));
}

#[test]
fn cubemap_file_header() {
    let level = compress_level(&[0u32; 6]);
    let n = level.bytes.len();
    let f = write_cubemap_levels(1, 1, vec![level]).unwrap();
    assert_eq!(f.len(), 80 + 24 + 12 + n);
    assert_eq!(u32_at(&f, 12), 123);
    assert_eq!(u32_at(&f, 16), 1);
    assert_eq!(u32_at(&f, 20), 1);
    assert_eq!(u32_at(&f, 36), 6);
    assert_eq!(u32_at(&f, 44), 2);
    assert_eq!(&f[104..116], &[0, 0, 0, 0, 0, 0, 0, 0, 2, 0, 0, 0]);
    assert_eq!(u64_at(&f, 80), 116);
    assert_eq!(u64_at(&f, 96), 24);
}

#[test]
fn mip_level_located() {
    let r = mip_level_range(4, 4, 8, 3, 1, 1).unwrap();
    assert_eq!(r.byte_offset, 168 + 128);
    assert_eq!(r.byte_length, 32);
    assert_eq!((r.width, r.height), (2, 2));
    let base = mip_level_range(4, 4, 8, 3, 0, 0).unwrap();
    assert_eq!((base.byte_offset, base.byte_length), (0, 128));
    let past = mip_level_range(4, 2, 8, 3, 3, 0).unwrap();
    assert_eq!((past.byte_offset, past.width, past.height), (64 + 16, 0, 0));
}

#[test]
fn mip_level_overflow_is_none() {
    assert!(mip_level_range(u32::MAX, u32::MAX, usize::MAX, 2, 1, 0).is_none());
    assert!(mip_level_range(u32::MAX, u32::MAX, 1 << 40, 1, 0, 0).is_none());
}

#[test]
fn faces_are_joined_in_order() {
    let a = vec![1.0f32.to_bits(), 0.5f32.to_bits(), 0.25f32.to_bits(), 0];
    let b = vec![0.0f32.to_bits(); 4];
    let c = vec![65408.0f32.to_bits(), 65408.0f32.to_bits(), 65408.0f32.to_bits()];
    let words = rgb9e5_faces(&[a.clone(), b, c]);
    assert_eq!(words, vec![(16 << 27) | (64 << 18) | (128 << 9) | 256, 0, u32::MAX]);
    assert_eq!(rgb9e5_faces(&[]), Vec::<u32>::new());
}

fn cube_faces(rgba: [f32; 4], pixels: usize) -> Vec<Vec<u32>> {
    let mut face = Vec::new();
    for _ in 0..pixels {
        face.extend(rgba.iter().map(|x| x.to_bits()));
    }
    vec![face; 6]
}

#[test]
fn cubemap_from_faces() {
    let mips = vec![cube_faces([1.0, 0.5, 0.25, 1.0], 4), cube_faces([0.0, 0.0, 0.0, 1.0], 1)];
    let f = write_ktx2(2, 2, &mips).unwrap();
    let l0 = compress_level(&rgb9e5_faces(&mips[0]));
    let l1 = compress_level(&rgb9e5_faces(&mips[1]));
    assert_eq!(l0.uncompressed_length, 6 * 4 * 4);
    assert_eq!(l1.uncompressed_length, 6 * 4);
    let payload = 80 + 2 * 24 + 12;
    assert_eq!(f.len(), payload + l0.bytes.len() + l1.bytes.len());
    assert_eq!(u32_at(&f, 40), 2);
    assert_eq!(u64_at(&f, 96), 96);
    assert_eq!(u64_at(&f, 120), 24);
    assert_eq!(&f[payload..payload + l1.bytes.len()], &l1.bytes[..]);
    assert_eq!(&f[payload + l1.bytes.len()..], &l0.bytes[..]);
    let expected = write_cubemap_levels(2, 2, vec![l0, l1]).unwrap();
    assert_eq!(f, expected);
}

#[test]
fn alpha_does_not_reach_the_file() {
    let a = vec![cube_faces([3.0, 0.5, 0.125, 1.0], 4)];
    let b = vec![cube_faces([3.0, 0.5, 0.125, 0.0], 4)];
    assert_eq!(write_ktx2(2, 2, &a).unwrap(), write_ktx2(2, 2, &b).unwrap());
}

#[test]
fn no_mip_levels() {
    let f = write_ktx2(4, 4, &[]).unwrap();
    assert_eq!(f.len(), 80 + 12);
    assert_eq!(u32_at(&f, 40), 0);
    assert_eq!(u32_at(&f, 48), 80);
}
