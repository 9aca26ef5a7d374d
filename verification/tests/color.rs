use vanplan::color::{next_color, text_color};

const COLORS: [&str; 8] = [
    "#c4b8a8", "#a8b0b8", "#a8b4a8", "#b8a8b0", "#b0a090", "#90a4a8", "#a8a090", "#9ca0b0",
];

#[test]
fn next_color_walks_the_palette() {
    for i in 0..8 {
        assert_eq!(next_color(COLORS[i]), COLORS[(i + 1) % 8]);
    }
    let mut c = COLORS[3];
    for _ in 0..8 {
        c = next_color(c);
    }
    assert_eq!(c, COLORS[3]);
}

#[test]
fn next_color_of_unknown_is_second() {
    assert_eq!(next_color("#ffffff"), COLORS[1]);
    assert_eq!(next_color(""), COLORS[1]);
}

#[test]
fn text_color_by_luminance() {
    assert_eq!(text_color("#ffffff"), "#1a1a1c");
    assert_eq!(text_color("#000000"), "#ece8e0");
    assert_eq!(text_color("  #c4b8a8 "), "#1a1a1c");
    assert_eq!(text_color("#204060"), "#ece8e0");
    // Unreadable colors count as luminance 0.5.
    assert_eq!(text_color("#fff"), "#1a1a1c");
    assert_eq!(text_color("zzzzzz"), "#1a1a1c");
    // `from_str_radix` takes a leading `+`.
    assert_eq!(text_color("+0+0+0"), "#ece8e0");
}

#[test]
fn text_color_at_the_threshold() {
    // 2126 r + 7152 g + 722 b == 1147500: f64 rounding decides.
    assert_eq!(text_color("#8d5ef3"), "#1a1a1c"); // (141, 94, 243)
    assert_eq!(text_color("#089746"), "#ece8e0"); // (8, 151, 70)
}
