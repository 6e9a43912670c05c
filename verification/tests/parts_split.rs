use xtch_core::parts::{out_dir_for, output_stem, part_file_name, split_limit, PartBuffer, PartPlanner};
use xtch_core::xtch::{assemble, encoded_page, EncodedPage, Page};

#[test]
fn split_limit_only_for_folders_in_range() {
    assert_eq!(split_limit(true, Some(10)), Some(10 * 1024 * 1024));
    assert_eq!(split_limit(true, Some(500)), Some(500 * 1024 * 1024));
    assert_eq!(split_limit(true, Some(64)), Some(67_108_864));
    assert_eq!(split_limit(true, Some(9)), None);
    assert_eq!(split_limit(true, Some(501)), None);
    assert_eq!(split_limit(true, None), None);
    assert_eq!(split_limit(false, Some(20)), None);
}

#[test]
fn planner_flushes_before_a_page_that_would_overflow() {
    let mut p = PartPlanner::new(Some(100));
    assert_eq!(p.part_bytes_now(), 48);
    // 48 + 16 + 20 = 84
    assert!(!p.add_page(20));
    assert_eq!(p.part_bytes_now(), 84);
    // 84 + 26 > 100: the part is written out first
    assert!(p.add_page(10));
    assert_eq!(p.flushed_parts(), 1);
    assert_eq!(p.part_pages(), 1);
    assert_eq!(p.part_bytes_now(), 74);
    // a page larger than the limit still makes a part of its own
    assert!(p.add_page(100));
    assert_eq!(p.part_bytes_now(), 164);
    assert!(p.add_page(1));
    assert_eq!(p.flushed_parts(), 3);
    assert_eq!(p.part_pages(), 1);
}

#[test]
fn planner_exactly_at_limit_does_not_flush() {
    let mut p = PartPlanner::new(Some(100));
    assert!(!p.add_page(20)); // 84
    assert!(!p.add_page(0)); // 100
    assert!(p.add_page(0));
}

#[test]
fn planner_never_flushes_without_limit() {
    let mut p = PartPlanner::new(None);
    for _ in 0..50 {
        assert!(!p.add_page(1_000_000));
    }
    assert_eq!(p.flushed_parts(), 0);
    assert_eq!(p.part_pages(), 50);
}

#[test]
fn planner_size_is_the_assembled_size() {
    let pages = vec![
        Page { width: 3, height: 9, gray: vec![7u8; 27] },
        Page { width: 8, height: 2, gray: vec![200u8; 16] },
    ];
    let enc: Vec<EncodedPage> = pages.iter().map(encoded_page).collect();
    let mut p = PartPlanner::new(None);
    for e in &enc {
        p.add_page(e.data.len());
    }
    assert_eq!(p.part_bytes_now(), assemble(&enc).len());
}

#[test]
fn out_dir_is_the_chosen_one_or_the_inputs() {
    assert_eq!(out_dir_for("/a/b/c.cbz", &None), "/a/b");
    assert_eq!(out_dir_for("/a/b/c.cbz", &Some(String::new())), "/a/b");
    assert_eq!(out_dir_for("/a/b/c.cbz", &Some("/out".to_string())), "/out");
    assert_eq!(out_dir_for("/a/b/folder", &None), "/a/b");
    assert_eq!(out_dir_for("c.cbz", &None), "");
    assert_eq!(out_dir_for("/", &None), "");
}

#[test]
fn output_stem_of_paths() {
    assert_eq!(output_stem("/a/b/c.cbz"), "c");
    assert_eq!(output_stem("/a/b/Vol 1"), "Vol 1");
    assert_eq!(output_stem("x.tar.gz"), "x.tar");
    assert_eq!(output_stem("/"), "output");
    assert_eq!(output_stem(""), "output");
}

#[test]
fn part_file_names() {
    assert_eq!(part_file_name("c", None), "c.xtch");
    assert_eq!(part_file_name("c", Some(1)), "c_1.xtch");
    assert_eq!(part_file_name("c", Some(12)), "c_12.xtch");
    assert_eq!(part_file_name("Vol 1", Some(100)), "Vol 1_100.xtch");
    assert_eq!(part_file_name("c", Some(0)), "c_0.xtch");
    assert_eq!(part_file_name("c", Some(18446744073709551615)), "c_18446744073709551615.xtch");
}

#[test]
fn buffer_hands_out_parts_in_order() {
    use_buffer();
}

fn use_buffer() {
    let pages: Vec<Page> = (1..=5u16).map(|w| Page { width: w, height: 8, gray: vec![0; w as usize * 8] }).collect();
    // blocks are 22 + 2w bytes; a limit of 140 holds 48 + (16 + 24) + (16 + 26) = 130
    let mut b = PartBuffer::new(Some(140));
    let mut parts: Vec<Vec<EncodedPage>> = Vec::new();
    for e in pages.iter().map(encoded_page) {
        if let Some(p) = b.push(e) {
            parts.push(p);
        }
    }
    assert_eq!(b.pages_seen(), 5);
    assert_eq!(b.parts_written(), parts.len());
    parts.push(b.into_last_part());
    let widths: Vec<Vec<u16>> = parts.iter().map(|p| p.iter().map(|e| e.width).collect()).collect();
    assert_eq!(widths, vec![vec![1, 2], vec![3, 4], vec![5]]);
    for p in &parts[..2] {
        assert!(assemble(p).len() <= 140);
    }
}
