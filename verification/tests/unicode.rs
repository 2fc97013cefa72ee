use tender::unicode::cells::{Cell, Cells};
use tender::unicode::graphemes::Graphemes;
use tender::unicode::{clamp, next_cluster};
use unicode_segmentation::UnicodeSegmentation;

#[test]
fn unicode_test() {
    const NUL: &str = "\0";
    const A: &str = "a̐";
    const O: &str = "ö̲";
    const E: &str = "é";
    const CRAB: &str = "🦀";
    const CRLF: &str = "\r\n";

    let cell = |index, column, width, str| Cell {
        index,
        column,
        width,
        str,
    };

    let str = [NUL, A, NUL, O, CRAB, E, CRLF].concat();
    let mut cursor = Cells::new(&str);
    let mut cells = Vec::new();
    while let Some(cell) = cursor.next() {
        cells.push(cell);
    }

    assert_eq!(
        cells,
        [
            cell(1, 0, 1, A),
            cell(2 + A.len(), 1, 1, O),
            cell(2 + A.len() + O.len(), 2, 2, CRAB),
            cell(2 + A.len() + O.len() + CRAB.len(), 4, 1, E),
        ]
    );
}

fn graphemes(str: &str) -> Vec<&str> {
    let mut cursor = Graphemes::new(str);
    let mut clusters = Vec::new();
    while let Some(cluster) = cursor.next() {
        clusters.push(cluster);
    }
    clusters
}

#[test]
fn graphemes_of_nothing() {
    assert_eq!(graphemes(""), Vec::<&str>::new());
}

#[test]
fn graphemes_of_ascii_are_single_bytes() {
    assert_eq!(graphemes("abc"), vec!["a", "b", "c"]);
}

#[test]
fn graphemes_keep_a_line_break_whole() {
    assert_eq!(graphemes("\r\n"), vec!["\r\n"]);
    assert_eq!(graphemes("a\r\nb"), vec!["a", "\r\n", "b"]);
    assert_eq!(graphemes("\n\r"), vec!["\n", "\r"]);
}

#[test]
fn graphemes_are_those_of_the_segmentation() {
    for text in [
        "",
        "plain ascii, with punctuation!",
        "tab\there\r\nand\0nul\u{7f}",
        "e\u{301}x\u{1F469}\u{200D}\u{1F52C}y",
        "\u{1F1EB}\u{1F1F7}\u{1F1EB}",
        "\u{200C}ab\u{200C}cde\u{200C}",
        "\u{915}\u{94D}\u{937}\u{93E}",
    ] {
        assert_eq!(graphemes(text), text.graphemes(true).collect::<Vec<_>>());
        assert_eq!(graphemes(text).concat(), text);
    }
}

#[test]
fn graphemes_keep_a_cluster_whole() {
    assert_eq!(
        graphemes("e\u{301}x\u{1F469}\u{200D}\u{1F52C}y"),
        vec!["e\u{301}", "x", "\u{1F469}\u{200D}\u{1F52C}", "y"]
    );
}

#[test]
fn graphemes_join_a_mark_to_its_base() {
    assert_eq!(graphemes("a\u{310}b"), vec!["a\u{310}", "b"]);
}

#[test]
fn clamp_keeps_narrow_widths() {
    assert_eq!(clamp(0), 0);
    assert_eq!(clamp(1), 1);
    assert_eq!(clamp(2), 2);
}

#[test]
fn clamp_caps_at_two() {
    assert_eq!(clamp(3), 2);
    assert_eq!(clamp(4), 2);
    assert_eq!(clamp(usize::MAX), 2);
}

#[test]
fn next_cluster_passes_over_zero_width() {
    let text = "\0\0ab";
    let cluster = next_cluster(text, 0).unwrap();
    assert_eq!((cluster.index, cluster.len, cluster.width, cluster.str), (2, 1, 1, "a"));
    let cluster = next_cluster(text, 3).unwrap();
    assert_eq!((cluster.index, cluster.len, cluster.width, cluster.str), (3, 1, 1, "b"));
    assert!(next_cluster(text, 4).is_none());
}

#[test]
fn next_cluster_clamps_a_joined_emoji() {
    // Its characters add up to four columns; a cell takes two at most.
    let text = "\u{1F469}\u{200D}\u{1F52C}";
    let cluster = next_cluster(text, 0).unwrap();
    assert_eq!((cluster.index, cluster.len, cluster.width), (0, text.len(), 2));
}

#[test]
fn next_cluster_of_only_zero_width() {
    assert!(next_cluster("\r\n\0", 0).is_none());
    assert!(next_cluster("", 0).is_none());
}
