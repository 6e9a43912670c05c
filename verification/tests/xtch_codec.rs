use xtch_core::xtch::{assemble, container_size, encode_page, encode_xtch, encoded_page, quantize, EncodedPage, Page};

#[test]
fn quantize_picks_nearest_reader_level() {
    assert_eq!(quantize(255), 0);
    assert_eq!(quantize(213), 0);
    assert_eq!(quantize(212), 1);
    assert_eq!(quantize(170), 1);
    assert_eq!(quantize(128), 1);
    assert_eq!(quantize(127), 2);
    assert_eq!(quantize(85), 2);
    assert_eq!(quantize(43), 2);
    assert_eq!(quantize(42), 3);
    assert_eq!(quantize(0), 3);
}

fn small_page() -> Page {
    // rows: [0, 255], [85, 170], [255, 0]
    Page { width: 2, height: 3, gray: vec![0, 255, 85, 170, 255, 0] }
}

#[test]
fn encode_page_is_byte_exact() {
    let block = encode_page(&small_page());
    let mut expected = vec![0x58, 0x54, 0x48, 0x00, 2, 0, 3, 0, 0, 0, 4, 0, 0, 0];
    expected.extend_from_slice(&[0u8; 8]);
    // low plane: stored column 0 is image column 1, then image column 0
    expected.extend_from_slice(&[0x60, 0x80]);
    // high plane
    expected.extend_from_slice(&[0x20, 0xC0]);
    assert_eq!(block, expected);
}

#[test]
fn encode_page_pads_columns_to_whole_bytes() {
    // 1 x 9: two bytes per column; rows 8.. go to the second byte
    let gray = vec![0u8; 9];
    let block = encode_page(&Page { width: 1, height: 9, gray });
    assert_eq!(block.len(), 22 + 4);
    assert_eq!(&block[10..14], &[4, 0, 0, 0]);
    assert_eq!(&block[22..26], &[0xFF, 0x80, 0xFF, 0x80]);
}

#[test]
fn encode_page_ignores_extra_gray_bytes() {
    let mut p = small_page();
    let a = encode_page(&p);
    p.gray.extend_from_slice(&[7, 7, 7]);
    assert_eq!(encode_page(&p), a);
}

#[test]
fn empty_page_has_only_a_header() {
    let block = encode_page(&Page { width: 0, height: 0, gray: vec![] });
    assert_eq!(block.len(), 22);
    assert_eq!(&block[0..4], b"XTH\0");
}

#[test]
fn encoded_page_keeps_dimensions() {
    let e = encoded_page(&small_page());
    assert_eq!((e.width, e.height), (2, 3));
    assert_eq!(e.data, encode_page(&small_page()));
}

#[test]
fn assemble_writes_header_directory_and_blocks() {
    let e1 = encoded_page(&small_page());
    let e2 = EncodedPage { width: 5, height: 7, data: vec![1, 2, 3] };
    let out = assemble(&[e1, e2]);
    assert_eq!(&out[0..4], b"XTCH");
    assert_eq!(&out[4..6], &[1, 0]);
    assert_eq!(&out[6..8], &[2, 0]);
    assert_eq!(&out[8..24], &[0u8; 16]);
    assert_eq!(&out[24..32], &48u64.to_le_bytes());
    assert_eq!(&out[32..40], &80u64.to_le_bytes());
    assert_eq!(&out[40..48], &[0u8; 8]);
    // directory
    assert_eq!(&out[48..56], &80u64.to_le_bytes());
    assert_eq!(&out[56..60], &26u32.to_le_bytes());
    assert_eq!(&out[60..64], &[2, 0, 3, 0]);
    assert_eq!(&out[64..72], &106u64.to_le_bytes());
    assert_eq!(&out[72..76], &3u32.to_le_bytes());
    assert_eq!(&out[76..80], &[5, 0, 7, 0]);
    // blocks
    assert_eq!(&out[80..106], encode_page(&small_page()).as_slice());
    assert_eq!(&out[106..], &[1, 2, 3]);
    assert_eq!(out.len(), container_size(2, 29));
}

#[test]
fn assemble_of_no_pages_is_a_bare_header() {
    let out = assemble(&[]);
    assert_eq!(out.len(), 48);
    assert_eq!(out.len(), container_size(0, 0));
    assert_eq!(&out[32..40], &48u64.to_le_bytes());
}

#[test]
fn encode_xtch_equals_assembling_encoded_pages() {
    let pages = vec![small_page(), Page { width: 1, height: 1, gray: vec![128] }];
    let encoded: Vec<EncodedPage> = pages.iter().map(encoded_page).collect();
    assert_eq!(encode_xtch(&pages), assemble(&encoded));
}

#[test]
fn container_size_formula() {
    assert_eq!(container_size(3, 1000), 48 + 48 + 1000);
}

#[test]
fn encode_xtch_is_assemble_of_encoded_pages() {
    let pages = vec![
        Page { width: 2, height: 3, gray: vec![0, 255, 85, 170, 255, 0] },
        Page { width: 1, height: 9, gray: vec![40; 9] },
    ];
    let enc: Vec<EncodedPage> = pages.iter().map(encoded_page).collect();
    let out = encode_xtch(&pages);
    assert_eq!(out, assemble(&enc));
    // entry 1: width 1, height 9, block at 48 + 32 + len(block 0)
    let off0 = 48 + 32;
    let off1 = off0 + enc[0].data.len();
    assert_eq!(&out[64..72], &(off1 as u64).to_le_bytes());
    assert_eq!(&out[76..80], &[1, 0, 9, 0]);
    assert_eq!(&out[off1..off1 + enc[1].data.len()], &encode_page(&pages[1])[..]);
}
