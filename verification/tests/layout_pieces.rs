use xtch_core::layout::{
    classify, common_area, layout_pieces, median_of, orientation_from_name, piece_count, screen_size, split_from_name, Band, Class,
    Orientation, PieceSpec, Source, Split,
};

fn p(source: Source, band: Band, w: u32, h: u32) -> PieceSpec {
    PieceSpec { source, band, width: w, height: h }
}

#[test]
fn screens() {
    assert_eq!(screen_size(Orientation::Portrait), (480, 800));
    assert_eq!(screen_size(Orientation::Landscape), (800, 480));
}

#[test]
fn classify_by_aspect_then_size() {
    assert_eq!(classify(600, 800, true), Class::Portrait);
    assert_eq!(classify(800, 800, true), Class::Portrait);
    assert_eq!(classify(1600, 1000, true), Class::Spread);
    assert_eq!(classify(1600, 1000, false), Class::Rotated);
}

#[test]
fn portrait_page_is_one_portrait_piece() {
    let v = layout_pieces(Class::Portrait, Orientation::Portrait, Split::Thirds, true);
    assert_eq!(v, vec![p(Source::Page, Band::Full, 480, 800)]);
    let v = layout_pieces(Class::Rotated, Orientation::Portrait, Split::Whole, false);
    assert_eq!(v, vec![p(Source::Page, Band::Full, 480, 800)]);
}

#[test]
fn landscape_splits() {
    let v = layout_pieces(Class::Portrait, Orientation::Landscape, Split::Whole, true);
    assert_eq!(v, vec![p(Source::Page, Band::Full, 800, 480)]);
    let v = layout_pieces(Class::Portrait, Orientation::Landscape, Split::Half, true);
    assert_eq!(v, vec![p(Source::Page, Band::Half(0), 800, 480), p(Source::Page, Band::Half(1), 800, 480)]);
    let v = layout_pieces(Class::Rotated, Orientation::Landscape, Split::Thirds, true);
    assert_eq!(
        v,
        vec![
            p(Source::Page, Band::Third(0), 800, 480),
            p(Source::Page, Band::Third(1), 800, 480),
            p(Source::Page, Band::Third(2), 800, 480),
        ]
    );
}

#[test]
fn spread_manga_mode_right_half_first() {
    let v = layout_pieces(Class::Spread, Orientation::Portrait, Split::Whole, true);
    assert_eq!(
        v,
        vec![
            p(Source::SpreadRotated, Band::Full, 480, 800),
            p(Source::RightHalf, Band::Full, 480, 800),
            p(Source::LeftHalf, Band::Full, 480, 800),
        ]
    );
}

#[test]
fn spread_left_to_right_in_landscape_thirds() {
    let v = layout_pieces(Class::Spread, Orientation::Landscape, Split::Thirds, false);
    assert_eq!(v.len(), 7);
    assert_eq!(v[0], p(Source::SpreadRotated, Band::Full, 480, 800));
    for i in 0..3u8 {
        assert_eq!(v[1 + i as usize], p(Source::LeftHalf, Band::Third(i), 800, 480));
        assert_eq!(v[4 + i as usize], p(Source::RightHalf, Band::Third(i), 800, 480));
    }
}

#[test]
fn piece_counts_match_layouts() {
    let classes = [Class::Portrait, Class::Spread, Class::Rotated];
    let os = [Orientation::Portrait, Orientation::Landscape];
    let splits = [Split::Whole, Split::Half, Split::Thirds];
    for c in classes {
        for o in os {
            for s in splits {
                for m in [true, false] {
                    assert_eq!(piece_count(c, o, s), layout_pieces(c, o, s, m).len());
                }
            }
        }
    }
    assert_eq!(piece_count(Class::Portrait, Orientation::Landscape, Split::Half), 2);
    assert_eq!(piece_count(Class::Spread, Orientation::Landscape, Split::Half), 5);
    assert_eq!(piece_count(Class::Spread, Orientation::Portrait, Split::Thirds), 3);
}

#[test]
fn names_of_settings() {
    assert_eq!(orientation_from_name("landscape"), Orientation::Landscape);
    assert_eq!(orientation_from_name("portrait"), Orientation::Portrait);
    assert_eq!(orientation_from_name("Landscape"), Orientation::Portrait);
    assert_eq!(orientation_from_name(""), Orientation::Portrait);
    assert_eq!(split_from_name("half"), Split::Half);
    assert_eq!(split_from_name("thirds"), Split::Thirds);
    assert_eq!(split_from_name("none"), Split::Whole);
    assert_eq!(split_from_name("halves"), Split::Whole);
}

#[test]
fn median_is_the_middle_value_in_order() {
    assert_eq!(median_of(&vec![5, 1, 3]), 3);
    // even length: the upper of the two middle values
    assert_eq!(median_of(&vec![4, 1, 3, 2]), 3);
    assert_eq!(median_of(&vec![7]), 7);
    assert_eq!(median_of(&vec![2, 2, 9, 2]), 2);
    assert_eq!(median_of(&vec![9, 9, 1, 9, 1]), 9);
    assert_eq!(median_of(&vec![u64::MAX, 0]), u64::MAX);
}

#[test]
fn common_area_prefers_tall_pages() {
    assert_eq!(common_area(&vec![480_000, 500_000, 520_000], &vec![1, 2, 3, 4]), 500_000);
    assert_eq!(common_area(&vec![], &vec![10, 30, 20]), 20);
    assert_eq!(common_area(&vec![], &vec![]), 0);
}
