//! Face detection on small hand-made cascades and images.

use citlali::face::cascade::{is_well_formed, parse, Cascade, Stage};
use citlali::face::group::{strongest, Face, Hit};
use citlali::face::integral::{lbp, Integral};
use citlali::face::markup::{are_numbers, elements, find, numbers, words};
use citlali::face::{detect, Scale};
use citlali::text::characters;

const ONE: Scale = Scale { parts: 1, unit: 1 };

/// A stump as it stands in a cascade file.
fn stump(feature: i32, subset: [i32; 8], leaves: (&str, &str)) -> String {
    let subset: Vec<String> = subset.iter().map(|w| w.to_string()).collect();
    format!(
        "<_><internalNodes>\n 0 -1 {feature} {}</internalNodes>\n<leafValues>\n {} {}</leafValues></_>\n",
        subset.join(" "),
        leaves.0,
        leaves.1
    )
}

fn stage(threshold: &str, stumps: &[String]) -> String {
    format!(
        "<_>\n<maxWeakCount>{}</maxWeakCount>\n<stageThreshold>{threshold}</stageThreshold>\n<weakClassifiers>\n{}</weakClassifiers></_>\n",
        stumps.len(),
        stumps.concat()
    )
}

fn file(stages: &[String], rects: &[[usize; 4]]) -> String {
    let rects: Vec<String> =
        rects.iter().map(|[x, y, w, h]| format!("<_>\n<rect>\n {x} {y} {w} {h}</rect></_>\n")).collect();
    format!(
        "<?xml version=\"1.0\"?>\n<opencv_storage>\n<cascade>\n<stages>\n{}</stages>\n<features>\n{}</features></cascade>\n</opencv_storage>\n",
        stages.concat(),
        rects.concat()
    )
}

fn number(word: &Vec<char>) -> f32 {
    word.iter().collect::<String>().parse().unwrap()
}

fn passes(stage: &Stage, leaves: &[usize]) -> bool {
    let sum: f32 = stage.stumps.iter().zip(leaves).map(|(s, &leaf)| number(&s.leaves[leaf])).sum();
    sum >= number(&stage.threshold[0]) - 1e-5
}

fn find_face(cascade: &Cascade, scales: &[Scale], pixels: &[u8], width: usize) -> Option<Face> {
    assert!(cascade.check());
    detect(cascade, scales, pixels, width, &|s: usize, leaves: &Vec<usize>| passes(&cascade.stages[s], leaves))
}

/// Reads a file after checking it.
fn read(xml: &str) -> Cascade {
    assert!(is_well_formed(xml));
    parse(xml)
}

/// Accepts a window whose middle is brighter than everything around it.
fn bright_middle() -> Cascade {
    let lone = stump(0, [1, 0, 0, 0, 0, 0, 0, 0], ("1.5", "-1.5"));
    read(&file(&[stage("1.0", &[lone])], &[[0, 0, 8, 8]]))
}

fn block(width: usize, height: usize, at: (usize, usize), side: usize) -> Vec<u8> {
    let mut pixels = vec![0; width * height];
    for y in at.1..at.1 + side {
        for x in at.0..at.0 + side {
            pixels[y * width + x] = 200;
        }
    }
    pixels
}

#[test]
fn cascade_parses_every_stage_and_feature() {
    // 20 stages of 38 stumps, and 11 stumps more in the last.
    let stages: Vec<String> = (0..20)
        .map(|s| {
            let count = if s == 19 { 49 } else { 38 };
            let stumps: Vec<String> = (0..count)
                .map(|k| stump((s * 7 + k) % 90, [-1, 0, 3, -2147483648, 5, 6, 7, 2147483647], ("0.5", "-0.25")))
                .collect();
            stage("-1.25", &stumps)
        })
        .collect();
    let cascade = read(&file(&stages, &[[0, 0, 8, 8]; 90]));
    assert_eq!(cascade.stages.len(), 20);
    assert_eq!(cascade.stages.iter().map(|s| s.stumps.len()).sum::<usize>(), 771);
    assert!(cascade.stages.iter().flat_map(|s| &s.stumps).all(|s| s.feature < cascade.features.len()));
    assert_eq!(cascade.stages[3].stumps[2].subset, [u32::MAX, 0, 3, 1 << 31, 5, 6, 7, (1 << 31) - 1]);
    assert!(cascade.check());
}

/// A number from 1 up to 2^52 as the fraction that it stands for.
fn exact(scale: f64) -> Scale {
    let bits = scale.to_bits();
    let exponent = (bits >> 52) - 1023;
    Scale { parts: bits & ((1 << 52) - 1) | 1 << 52, unit: 1 << (52 - exponent) }
}

/// The detector's scales, up to the first whose window is more than `limit` pixels wide.
fn chain(limit: usize) -> Vec<f64> {
    let mut scales = vec![1.0];
    while (24.0 * scales[scales.len() - 1]) as usize <= limit {
        scales.push(scales[scales.len() - 1] * 1.1);
    }
    scales
}

fn scales(limit: usize) -> Vec<Scale> {
    chain(limit).into_iter().map(exact).collect()
}

#[test]
fn flat_image_has_no_face() {
    let list = scales(48);
    let last = list[list.len() - 1];
    assert!(24 * u128::from(last.parts) / u128::from(last.unit) > 48);
    assert!(list.len() > 8);
    assert_eq!(find_face(&bright_middle(), &list, &[128; 64 * 48], 64), None);
    for scale in list {
        assert_eq!(find_face(&bright_middle(), &[scale], &[128; 64 * 48], 64), None);
    }
}

#[test]
fn flat_image_passes_where_its_pattern_is_wanted() {
    // All cells are as bright as the middle: code 255, the last bit of the subset.
    let lone = stump(0, [0, 0, 0, 0, 0, 0, 0, i32::MIN], ("1.5", "-1.5"));
    let cascade = read(&file(&[stage("1.0", &[lone])], &[[0, 0, 8, 8]]));
    let face = find_face(&cascade, &scales(48), &[128; 64 * 48], 64).unwrap();
    assert!(face.count > 3);
}

#[test]
fn fractions_truncate_like_the_floats_they_stand_for() {
    for scale in chain(i32::MAX as usize) {
        let Scale { parts, unit } = exact(scale);
        assert_eq!(parts as f64 / unit as f64, scale);
        for v in 0..=24u32 {
            let fraction = u128::from(v) * u128::from(parts) / u128::from(unit);
            assert_eq!((f64::from(v) * scale) as u128, fraction);
        }
    }
}

#[test]
fn order_of_hits_makes_no_difference() {
    let mut list = hits(&[[0, 0, 24, 24], [4, 0, 24, 24], [8, 0, 24, 24], [12, 0, 24, 24], [90, 90, 30, 30], [91, 90, 30, 30]]);
    let face = strongest(&list).unwrap();
    assert_eq!(face, Face { count: 4, x: 24, y: 0, width: 96, height: 96 });
    for _ in 0..6 {
        list.rotate_left(1);
        assert_eq!(strongest(&list), Some(face));
        list.swap(0, 2);
        assert_eq!(strongest(&list), Some(face));
    }
}

#[test]
fn order_decides_between_two_largest_groups() {
    let mut list = hits(&[[0, 0, 24, 24]; 4]);
    list.extend(hits(&[[100, 0, 24, 24]; 4]));
    let later = strongest(&list).unwrap();
    list.reverse();
    assert_ne!(strongest(&list), Some(later));
}

#[test]
fn partial_row_has_no_influence() {
    let full = block(48, 48, (20, 20), 8);
    let mut more = full.clone();
    more.extend([255; 47]);
    let face = find_face(&bright_middle(), &scales(48), &full, 48);
    assert!(face.is_some());
    assert_eq!(find_face(&bright_middle(), &scales(48), &more, 48), face);
}

#[test]
fn tiny_images_have_no_face() {
    // Every window passes a cascade without stages.
    let cascade = read(&file(&[], &[]));
    for (width, height) in [(24, 24), (24, 25), (25, 24), (25, 25)] {
        assert_eq!(find_face(&cascade, &scales(25), &vec![7; width * height], width), None);
    }
    assert!(find_face(&cascade, &scales(28), &vec![7; 28 * 28], 28).is_some());
}

#[test]
fn faces_on_a_preview_are_a_twentieth_of_its_edges() {
    let cascade = read(&file(&[], &[]));
    let face = find_face(&cascade, &[ONE], &vec![7; 480 * 30], 480).unwrap();
    assert!(20 * face.width >= face.count as u128 * 480);
}

#[test]
fn lone_hit_is_not_a_face() {
    assert_eq!(strongest(&[Hit { x: 0, y: 0, width: 24, height: 24 }]), None);
    assert_eq!(strongest(&[]), None);
}

/// The mean box of a group.
fn mean(face: Face) -> [f64; 4] {
    [face.x, face.y, face.width, face.height].map(|v| v as f64 / face.count as f64)
}

fn hits(boxes: &[[usize; 4]]) -> Vec<Hit> {
    boxes.iter().map(|&[x, y, width, height]| Hit { x, y, width, height }).collect()
}

#[test]
fn overlapping_hits_average_into_one_face() {
    let hits = hits(&[[10, 10, 24, 24], [11, 10, 24, 24], [10, 11, 24, 24], [9, 9, 24, 24]]);
    assert_eq!(strongest(&hits).map(mean), Some([10.0, 10.0, 24.0, 24.0]));
}

#[test]
fn three_hits_are_too_few() {
    assert_eq!(strongest(&hits(&[[10, 10, 24, 24]; 3])), None);
    assert_eq!(
        strongest(&hits(&[[10, 10, 24, 24]; 4])),
        Some(Face { count: 4, x: 40, y: 40, width: 96, height: 96 })
    );
}

#[test]
fn hits_group_through_chains() {
    // Each is near the next (4.8 pixels at most), the ends are not near each other.
    let chain = hits(&[[0, 0, 24, 24], [16, 0, 24, 24], [8, 0, 24, 24], [4, 0, 24, 24], [12, 0, 24, 24]]);
    assert_eq!(strongest(&chain), Some(Face { count: 5, x: 40, y: 0, width: 120, height: 120 }));
    let broken = hits(&[[0, 0, 24, 24], [16, 0, 24, 24], [4, 0, 24, 24], [12, 0, 24, 24]]);
    assert_eq!(strongest(&broken), None);
}

#[test]
fn tolerance_is_a_tenth_of_width_plus_height() {
    let near = hits(&[[0, 0, 25, 25], [5, 0, 25, 25], [0, 0, 25, 25], [5, 0, 25, 25]]);
    assert!(strongest(&near).is_some());
    let far = hits(&[[0, 0, 25, 25], [6, 0, 25, 25], [0, 0, 25, 25], [6, 0, 25, 25]]);
    assert!(strongest(&far).is_none());
    // Near corners do not help hits of different sizes.
    let sizes = hits(&[[0, 0, 24, 24], [0, 0, 40, 40], [0, 0, 24, 24], [0, 0, 40, 40]]);
    assert!(strongest(&sizes).is_none());
}

#[test]
fn largest_group_wins_and_ties_go_to_the_later() {
    let mut boxes = vec![[0, 0, 24, 24]; 5];
    boxes.extend([[100, 0, 24, 24]; 4]);
    assert_eq!(strongest(&hits(&boxes)).map(|f| f.count), Some(5));
    let mut boxes = vec![[0, 0, 24, 24]; 4];
    boxes.extend([[100, 0, 24, 24]; 4]);
    assert_eq!(strongest(&hits(&boxes)).map(|f| f.x), Some(400));
}

#[test]
fn bright_block_is_found_in_its_place() {
    let pixels = block(48, 48, (20, 20), 8);
    let face = find_face(&bright_middle(), &[ONE], &pixels, 48).unwrap();
    assert_eq!(face, Face { count: 9, x: 108, y: 108, width: 216, height: 216 });
    assert_eq!(mean(face), [12.0, 12.0, 24.0, 24.0]);
}

#[test]
fn larger_block_is_found_at_a_larger_scale() {
    let pixels = block(96, 72, (40, 28), 16);
    let double = Scale { parts: 2, unit: 1 };
    assert_eq!(find_face(&bright_middle(), &[ONE], &block(96, 72, (36, 24), 24), 96), None);
    // Windows of 48 pixels stand 4 pixels apart.
    let face = find_face(&bright_middle(), &[double], &pixels, 96).unwrap();
    assert_eq!(mean(face), [24.0, 12.0, 48.0, 48.0]);
    assert_eq!(face.count, 9);
}

#[test]
fn windows_larger_than_the_image_end_the_search() {
    let pixels = block(48, 48, (20, 20), 8);
    let large = Scale { parts: 3, unit: 1 };
    assert_eq!(find_face(&bright_middle(), &[large, ONE], &pixels, 48), None);
    assert!(find_face(&bright_middle(), &[ONE, large], &pixels, 48).is_some());
    assert_eq!(find_face(&bright_middle(), &[], &pixels, 48), None);
}

#[test]
fn every_stage_has_to_pass() {
    let wanted = stump(0, [1, 0, 0, 0, 0, 0, 0, 0], ("1.5", "-1.5"));
    let never = stage("2.0", &[wanted.clone()]);
    let cascade = read(&file(&[stage("1.0", &[wanted]), never], &[[0, 0, 8, 8]]));
    assert_eq!(find_face(&cascade, &[ONE], &block(48, 48, (20, 20), 8), 48), None);
}

#[test]
fn image_smaller_than_the_window_has_no_face() {
    assert_eq!(find_face(&bright_middle(), &[ONE], &[0; 10 * 10], 10), None);
}

#[test]
fn unsound_cascades_are_told_apart() {
    let lone = stump(0, [1, 0, 0, 0, 0, 0, 0, 0], ("1", "-1"));
    let outside = read(&file(&[stage("1", &[lone.clone()])], &[[1, 0, 8, 8]]));
    assert!(!outside.check());
    let missing = read(&file(&[stage("1", &[lone])], &[]));
    assert!(!missing.check());
    let negative = stump(-1, [1, 0, 0, 0, 0, 0, 0, 0], ("1", "-1"));
    assert!(!read(&file(&[stage("1", &[negative])], &[[0, 0, 8, 8]])).check());
}

#[test]
fn malformed_cascades_are_not_read() {
    let good = stump(0, [1, 0, 0, 0, 0, 0, 0, 0], ("1", "-1"));
    assert!(is_well_formed(&file(&[stage("1", &[good.clone()])], &[[0, 0, 8, 8]])));
    assert!(!is_well_formed(""));
    assert!(!is_well_formed("<stages></stages>"));
    assert!(!is_well_formed("<features></features><stages>"));
    let short = "<_><internalNodes>0 -1 0 1 2</internalNodes><leafValues>1 2</leafValues></_>".to_string();
    assert!(!is_well_formed(&file(&[stage("1", &[short])], &[])));
    let lone_leaf = good.replace(" 1 -1<", " 1<");
    assert!(!is_well_formed(&file(&[stage("1", &[lone_leaf])], &[])));
    let letters = good.replace("0 -1 0", "0 -1 x");
    assert!(!is_well_formed(&file(&[stage("1", &[letters])], &[])));
    assert!(!is_well_formed(&file(&[stage(" ", &[good.clone()])], &[])));
    let three = file(&[stage("1", &[good])], &[]).replace("<features>", "<features><rect>1 2 3</rect>");
    assert!(!is_well_formed(&three));
}

#[test]
fn stages_take_their_stumps_in_turn() {
    let stumps: Vec<String> =
        (0..3).map(|k| stump(k, [0; 8], ("1", "2"))).collect();
    // The first stage takes one of its three stumps, the second asks for more than are left.
    let text = file(&[stage("1", &stumps)], &[[0, 0, 8, 8]; 3])
        .replace("<maxWeakCount>3", "<maxWeakCount>1")
        .replace("</stages>", "<maxWeakCount>9</maxWeakCount><stageThreshold>-0.5 7</stageThreshold></stages>");
    let cascade = read(&text);
    let features: Vec<Vec<usize>> =
        cascade.stages.iter().map(|s| s.stumps.iter().map(|s| s.feature).collect()).collect();
    assert_eq!(features, vec![vec![0], vec![1, 2]]);
    assert_eq!(cascade.stages[1].threshold, vec![characters("-0.5"), characters("7")]);
}

#[test]
fn integral_sums_rectangles() {
    let pixels = [1, 2, 3, 4, 5, 6, 7, 8, 9, 10, 11, 12];
    let ii = Integral::new(&pixels, 4);
    assert_eq!(ii.sum(0, 0, 4, 3), 78);
    assert_eq!(ii.sum(1, 1, 2, 2), 6 + 7 + 10 + 11);
    assert_eq!(ii.sum(3, 2, 1, 1), 12);
    assert_eq!(ii.sum(2, 1, 0, 2), 0);
    // A last row that is not full is left out.
    let ii = Integral::new(&pixels[..11], 4);
    assert_eq!(ii.sum(0, 0, 4, 2), 36);
}

#[test]
fn integral_of_a_bright_image_fits() {
    let pixels = vec![255; 1000 * 1000];
    let ii = Integral::new(&pixels, 1000);
    assert_eq!(ii.sum(0, 0, 1000, 1000), 255_000_000);
    assert_eq!(ii.sum(999, 999, 1, 1), 255);
}

#[test]
fn patterns_run_clockwise_from_the_top_left() {
    let code = |bright: &[usize]| {
        let mut pixels = [0u8; 9];
        pixels[4] = 5;
        for &i in bright {
            pixels[i] = 5;
        }
        lbp(&Integral::new(&pixels, 3), 0, 0, 1, 1)
    };
    assert_eq!(code(&[]), 0);
    assert_eq!(code(&[0]), 128);
    assert_eq!(code(&[1]), 64);
    assert_eq!(code(&[2]), 32);
    assert_eq!(code(&[5]), 16);
    assert_eq!(code(&[8]), 8);
    assert_eq!(code(&[7]), 4);
    assert_eq!(code(&[6]), 2);
    assert_eq!(code(&[3]), 1);
    assert_eq!(lbp(&Integral::new(&[128; 9], 3), 0, 0, 1, 1), 255);
}

fn texts(list: Vec<Vec<char>>) -> Vec<String> {
    list.into_iter().map(|text| text.into_iter().collect()).collect()
}

#[test]
fn elements_stand_between_their_tags() {
    let text = characters("x<a>1</a> 2 <a>3<b>4</b></a><a>5<a>6</a>7</a>");
    assert_eq!(texts(elements(&text, &characters("a"))), vec!["1", "3<b>4</b>", "5", "6"]);
    assert_eq!(texts(elements(&text, &characters("b"))), vec!["4"]);
    assert!(elements(&text, &characters("c")).is_empty());
}

#[test]
fn words_are_split_at_any_white_space() {
    assert_eq!(texts(words(&characters(" a\tbc\n\u{2003}d "))), vec!["a", "bc", "d"]);
    assert!(words(&characters(" \n")).is_empty());
}

#[test]
fn numbers_have_the_range_of_their_type() {
    let good = characters("0 -1 +7 2147483647 -2147483648");
    assert!(are_numbers::<i32>(&good));
    assert_eq!(numbers::<i32>(&good), vec![0, -1, 7, i32::MAX, i32::MIN]);
    for bad in ["2147483648", "-2147483649", "1.5", "-", "+", "--1", "0x1", "99999999999999999999999"] {
        assert!(!are_numbers::<i32>(&characters(bad)));
    }
    let good = characters("18446744073709551615 +0 007");
    assert!(are_numbers::<usize>(&good));
    assert_eq!(numbers::<usize>(&good), vec![usize::MAX, 0, 7]);
    assert!(!are_numbers::<usize>(&characters("18446744073709551616")));
    assert!(!are_numbers::<usize>(&characters("1 -1")));
    assert!(are_numbers::<usize>(&characters("")));
    assert!(numbers::<usize>(&characters("")).is_empty());
}

#[test]
fn patterns_are_found_from_a_place_on() {
    let text = characters("abcabc");
    assert_eq!(find(&text, &characters("bc"), 0), Some(1));
    assert_eq!(find(&text, &characters("bc"), 2), Some(4));
    assert_eq!(find(&text, &characters("bc"), 5), None);
    assert_eq!(find(&text, &characters("abcabcd"), 0), None);
}

#[test]
fn scaled_grids_stay_inside_the_image() {
    // The grid reaches every edge of the window; the windows reach every edge of the image.
    let mut list = Vec::new();
    for parts in 10..=20 {
        list.push(Scale { parts, unit: 10 });
    }
    for scale in list {
        let side = (24 * scale.parts / scale.unit) as usize;
        assert_eq!(find_face(&bright_middle(), &[scale], &vec![255; side * side], side), None);
    }
}

#[test]
fn faces_smaller_than_the_window_are_missed() {
    assert_eq!(find_face(&bright_middle(), &[ONE], &block(48, 23, (20, 8), 8), 48), None);
    assert_eq!(find_face(&bright_middle(), &[ONE], &block(23, 48, (8, 20), 8), 23), None);
}

#[test]
fn brightest_image_of_16_megapixels_can_be_summed() {
    let pixels = vec![255; 4104 * 4104];
    assert!(pixels.len() as u64 * 255 <= u64::from(u32::MAX));
    assert_eq!(Integral::new(&pixels, 4104).sum(0, 0, 4104, 4104), 4_294_918_080);
}
