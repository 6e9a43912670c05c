use xtch_core::input::{count_image_names, is_image_name, locate, preview_target, select_images};

fn names(v: &[&str]) -> Vec<String> {
    v.iter().map(|s| s.to_string()).collect()
}

#[test]
fn image_names_by_extension_any_case() {
    assert!(is_image_name("a.jpg"));
    assert!(is_image_name("A.JPG"));
    assert!(is_image_name("scan.jpeg"));
    assert!(is_image_name("p01.Png"));
    assert!(is_image_name("x.webp"));
    assert!(is_image_name("x.BMP"));
    assert!(is_image_name("x.gif"));
    assert!(is_image_name(".png"));
    assert!(is_image_name("dir/sub/07.png"));
    assert!(!is_image_name("png"));
    assert!(!is_image_name("a.tif"));
    assert!(!is_image_name("notes.txt"));
    assert!(!is_image_name("a.png.txt"));
    assert!(!is_image_name(""));
}

#[test]
fn select_images_sorts_by_name_and_skips_others() {
    let n = names(&["b.png", "a.txt", "a.jpg", "B.png", "c.gif"]);
    // byte order: "B.png" < "a.jpg" < "b.png" < "c.gif"
    assert_eq!(select_images(&n), vec![3, 2, 0, 4]);
    assert_eq!(count_image_names(&n), 4);
}

#[test]
fn select_images_keeps_equal_names_in_order() {
    let n = names(&["p.png", "o.png", "p.png"]);
    assert_eq!(select_images(&n), vec![1, 0, 2]);
}

#[test]
fn select_images_orders_prefix_first() {
    let n = names(&["p10.png", "p1.png", "p1.png.jpg"]);
    // "p1.png" < "p1.png.jpg" < "p10.png"
    assert_eq!(select_images(&n), vec![1, 2, 0]);
}

#[test]
fn select_images_of_nothing() {
    let n = names(&["readme.md"]);
    assert!(select_images(&n).is_empty());
    assert_eq!(count_image_names(&n), 0);
    assert_eq!(count_image_names(&Vec::new()), 0);
}

#[test]
fn locate_finds_source_and_local_page() {
    let counts = [2usize, 3, 1];
    assert_eq!(locate(&counts, 0), (0, 0));
    assert_eq!(locate(&counts, 1), (0, 1));
    assert_eq!(locate(&counts, 2), (1, 0));
    assert_eq!(locate(&counts, 4), (1, 2));
    assert_eq!(locate(&counts, 5), (2, 0));
}

#[test]
fn locate_past_the_end_gives_last_source() {
    assert_eq!(locate(&[2, 3, 1], 6), (2, 0));
    assert_eq!(locate(&[2, 3, 1], 100), (2, 0));
    assert_eq!(locate(&[], 0), (0, 0));
}

#[test]
fn locate_skips_sources_without_pages() {
    assert_eq!(locate(&[0, 2, 0, 1], 0), (1, 0));
    assert_eq!(locate(&[0, 2, 0, 1], 2), (3, 0));
}

#[test]
fn preview_target_clamps_the_index() {
    let t = preview_target(&[2, 3], 10).unwrap();
    assert_eq!((t.total, t.index, t.source, t.local), (5, 4, 1, 2));
    let t = preview_target(&[2, 3], 1).unwrap();
    assert_eq!((t.total, t.index, t.source, t.local), (5, 1, 0, 1));
}

#[test]
fn preview_target_without_pages_fails() {
    assert_eq!(preview_target(&[0, 0], 0).err(), Some("input produced no pages".to_string()));
    assert_eq!(preview_target(&[], 3).err(), Some("input produced no pages".to_string()));
}

#[test]
fn preview_of_the_settled_page_is_the_same() {
    let counts = [1usize, 0, 3, 2];
    for index in 0..10 {
        let t = preview_target(&counts, index).unwrap();
        let u = preview_target(&counts, t.index).unwrap();
        assert_eq!((u.total, u.index, u.source, u.local), (t.total, t.index, t.source, t.local));
    }
}
