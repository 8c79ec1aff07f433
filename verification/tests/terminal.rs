use agg::sixel::Image;
use agg::terminal::{build, PlacedImage, Snapshot, Terminal};
use rgb::RGBA8;

const SIZE: (usize, usize) = (10, 4);

// A 1x6 opaque red sixel image.
const RED_SIXEL: &str = "\u{1b}Pq#0;2;100;0;0~\u{1b}\\";

fn red() -> RGBA8 {
    RGBA8::new(255, 0, 0, 255)
}

fn red_image(col: usize, row: usize) -> PlacedImage {
    PlacedImage {
        col,
        row,
        image: Image {
            width: 1,
            height: 6,
            pixels: vec![red(); 6],
        },
    }
}

fn shown(inputs: &[&str]) -> Snapshot {
    let mut term = Terminal::new(SIZE);
    for input in inputs {
        term.feed_str(input);
    }
    term.snapshot(Vec::new())
}

#[test]
fn a_sixel_string_is_invisible_to_the_text_grid() {
    let mut term = Terminal::new(SIZE);
    term.feed_str("ab");
    term.feed_str(RED_SIXEL);

    let snapshot = term.snapshot(vec![red_image(2, 0)]);

    assert_eq!(snapshot.images.len(), 1);
    assert_eq!((snapshot.images[0].col, snapshot.images[0].row), (2, 0));
    assert_eq!(snapshot.images[0].pixels()[0], red());
    assert_eq!(snapshot.lines[0].text().trim_end(), "ab");
}

#[test]
fn a_new_terminal_is_blank() {
    let snapshot = build(SIZE).snapshot(Vec::new());

    assert_eq!(snapshot.lines.len(), 4);
    assert!(snapshot.lines.iter().all(|line| line.text().trim_end() == ""));
    assert!(snapshot.lines.iter().all(|line| line.len() == 10));
    assert_eq!(snapshot.cursor, Some((0, 0)));
    assert!(snapshot.images.is_empty());
}

#[test]
fn the_cursor_follows_the_text() {
    assert_eq!(shown(&["ab\r\nc"]).cursor, Some((1, 1)));
    assert_eq!(shown(&["ab\u{1b}[?25l"]).cursor, None);
}

#[test]
fn lines_scroll_out_of_view() {
    let snapshot = shown(&["1\r\n2\r\n3\r\n4\r\n5\r\n6"]);

    assert_eq!(snapshot.lines.len(), 4);
    assert_eq!(snapshot.lines[0].text().trim_end(), "3");
    assert_eq!(snapshot.lines[3].text().trim_end(), "6");
}

#[test]
fn no_scrollback_is_kept() {
    let mut term = Terminal::new((2, 2));
    term.feed_str("1\r\n2\r\n3\r\n4");

    assert_eq!(term.vt().size(), (2, 2));
    assert_eq!(term.vt().lines().count(), 2);
}

#[test]
fn equal_inputs_look_the_same() {
    let a = shown(&["ab", "\u{1b}[1mc"]);
    let b = shown(&["ab", "\u{1b}[1mc"]);

    assert!(a.same_visual(&a));
    assert!(a.same_visual(&b));
    assert!(b.same_visual(&a));
    assert!(a.clone().same_visual(&b));
}

#[test]
fn text_pens_and_cursors_tell_snapshots_apart() {
    let plain = shown(&["ab"]);

    assert!(!plain.same_visual(&shown(&["ac"])));
    assert!(!plain.same_visual(&shown(&["\u{1b}[1mab"])));
    assert!(!plain.same_visual(&shown(&["ab\u{1b}[?25l"])));
    assert!(!plain.same_visual(&shown(&["ab\r"])));
    assert!(!plain.same_visual(&Terminal::new((10, 5)).snapshot(Vec::new())));
}

#[test]
fn a_wrapped_line_differs_from_a_full_one() {
    let wrapped = shown(&["0123456789a"]);
    let broken = shown(&["0123456789\r\na"]);

    assert_eq!(wrapped.lines[0].text(), broken.lines[0].text());
    assert_eq!(wrapped.cursor, broken.cursor);
    assert!(!wrapped.same_visual(&broken));
}

#[test]
fn images_tell_snapshots_apart() {
    let term = Terminal::new(SIZE);
    let placed = term.snapshot(vec![red_image(2, 0)]);

    assert!(placed.same_visual(&term.snapshot(vec![red_image(2, 0)])));
    assert!(!placed.same_visual(&term.snapshot(Vec::new())));
    assert!(!placed.same_visual(&term.snapshot(vec![red_image(3, 0)])));
    assert!(!placed.same_visual(&term.snapshot(vec![red_image(2, 1)])));

    let mut dimmed = red_image(2, 0);
    dimmed.image.pixels[5].r = 254;
    assert!(!placed.same_visual(&term.snapshot(vec![dimmed])));

    let mut turned = red_image(2, 0);
    turned.image.width = 6;
    turned.image.height = 1;
    assert!(!placed.same_visual(&term.snapshot(vec![turned])));

    let mut short = red_image(2, 0);
    short.image.pixels.pop();
    assert!(!placed.same_visual(&term.snapshot(vec![short])));
}

#[test]
fn a_snapshot_looks_like_its_clone() {
    let mut term = Terminal::new(SIZE);
    term.feed_str("\u{1b}[1mab\u{1b}[0mc0123456789");
    let snapshot = term.snapshot(vec![red_image(2, 0), red_image(1, 1)]);
    let copy = snapshot.clone();

    assert!(copy.same_visual(&snapshot));
    assert_eq!(copy.lines.len(), 4);
    assert_eq!(copy.images, snapshot.images);
}

#[test]
fn a_terminal_without_columns_takes_the_empty_string() {
    let mut term = Terminal::new((0, 2));
    term.feed_str("");

    assert_eq!(term.snapshot(Vec::new()).lines.len(), 2);
}
