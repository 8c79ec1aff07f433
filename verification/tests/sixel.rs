use agg::extent::fits;
use agg::reader::{parse_number, parse_param, read_color, read_command, read_raster, read_repeat};
use agg::sixel::{
    decode, default_palette, percent_to_u8, rgb_from_percent, sixel_data, Decoder, Image,
};
use agg::stream::Command;
use rgb::{RGB8, RGBA8};
use std::cell::Cell;

// A red pixel defined in register 0 then plotted once. `@` is 0x40, i.e.
// value 1 — only the topmost pixel of the band is set.
const RED: RGB8 = RGB8::new(255, 0, 0);

fn opaque(c: RGB8) -> RGBA8 {
    c.with_alpha(255)
}

/// A stand-in for the hue, lightness and saturation conversion that shows
/// which arguments it was given.
fn hls(h: usize, l: usize, s: usize) -> RGB8 {
    RGB8::new((h % 256) as u8, (l % 256) as u8, (s % 256) as u8)
}

fn decode_fitting(body: &str) -> Option<Image> {
    assert!(fits(body));
    decode(body, hls)
}

fn chars(s: &str) -> Vec<char> {
    s.chars().collect()
}

#[test]
fn decodes_single_red_pixel() {
    let image = decode_fitting("q#0;2;100;0;0@").unwrap();

    assert_eq!(image.width, 1);
    assert_eq!(image.height, 6);
    assert_eq!(image.pixels[0], opaque(RED));
    // Only the topmost pixel of the six-pixel band is set; the rest stay
    // transparent.
    assert!(image.pixels[1..].iter().all(|p| p.a == 0));
}

#[test]
fn honors_raster_dimensions_for_blank_canvas() {
    // Raster attributes declare a 4x12 canvas; a single top-left pixel is
    // plotted, the rest remain transparent but contribute to the size.
    let image = decode_fitting("q\"1;1;4;12#0;2;100;100;100@").unwrap();

    assert_eq!(image.width, 4);
    assert_eq!(image.height, 12);
    assert_eq!(image.pixels.len(), 48);
    assert_eq!(image.pixels[0], opaque(RGB8::new(255, 255, 255)));
}

#[test]
fn full_band_sets_six_stacked_pixels() {
    // `~` is 0x7e -> value 63 -> all six bits set.
    let image = decode_fitting("q#0;2;0;100;0~").unwrap();

    assert_eq!(image.width, 1);
    assert_eq!(image.height, 6);
    assert!(image
        .pixels
        .iter()
        .all(|p| *p == opaque(RGB8::new(0, 255, 0))));
}

#[test]
fn run_length_repeats_columns() {
    // Repeat a full-height column five times.
    let image = decode_fitting("q#0;2;0;0;100!5~").unwrap();

    assert_eq!(image.width, 5);
    assert_eq!(image.height, 6);
    assert!(image
        .pixels
        .iter()
        .all(|p| *p == opaque(RGB8::new(0, 0, 255))));
}

#[test]
fn graphics_newline_starts_a_new_band() {
    // Top band fully set, newline, bottom band fully set: 12 rows tall.
    let image = decode_fitting("q#0;2;100;100;100~-~").unwrap();

    assert_eq!(image.width, 1);
    assert_eq!(image.height, 12);
    assert!(image.pixels.iter().all(|p| p.a == 255));
}

#[test]
fn carriage_return_overwrites_same_band() {
    // Two columns, return to start, overwrite the first column's color.
    let image = decode_fitting("q#0;2;100;0;0~~$#1;2;0;100;0~").unwrap();

    assert_eq!(image.width, 2);
    assert_eq!(image.pixels[0], opaque(RGB8::new(0, 255, 0)));
    assert_eq!(image.pixels[1], opaque(RED));
}

#[test]
fn selecting_a_predefined_register_uses_default_palette() {
    // Register 1 is the default blue without being redefined.
    let image = decode_fitting("q#1~").unwrap();

    assert_eq!(image.pixels[0], opaque(rgb_from_percent(20, 20, 80)));
}

#[test]
fn rgb_percentages_scale_to_full_range() {
    assert_eq!(rgb_from_percent(100, 0, 0), RGB8::new(255, 0, 0));
    assert_eq!(rgb_from_percent(0, 100, 0), RGB8::new(0, 255, 0));
    assert_eq!(percent_to_u8(50), 128);
}

#[test]
fn returns_none_without_introducer() {
    assert!(decode_fitting("#0;2;100;0;0@").is_none());
}

#[test]
fn returns_none_for_empty_data() {
    assert!(decode_fitting("q").is_none());
}

#[test]
fn ignores_whitespace_between_commands() {
    let image = decode_fitting("q\n#0;2;100;0;0\n@\n").unwrap();

    assert_eq!(image.width, 1);
    assert_eq!(image.pixels[0], opaque(RED));
}

#[test]
fn hls_components_reach_the_conversion() {
    let image = decode_fitting("q#5;1;120;50;100@$#0@#5@").unwrap();

    assert_eq!(image.width, 2);
    assert_eq!(image.pixels[0], opaque(RGB8::new(0, 0, 0)));
    assert_eq!(image.pixels[1], opaque(RGB8::new(120, 50, 100)));
}

#[test]
fn missing_components_are_zero() {
    let image = decode_fitting("q#5;2;100@").unwrap();
    assert_eq!(image.pixels[0], opaque(RED));

    let image = decode_fitting("q#5;1;7;;9@").unwrap();
    assert_eq!(image.pixels[0], opaque(RGB8::new(7, 0, 9)));
}

#[test]
fn any_color_space_but_hls_is_rgb() {
    for body in ["q#0;2;100;0;0@", "q#0;0;100;0;0@", "q#0;9;100;0;0@", "q#0;;100;0;0@"] {
        assert_eq!(decode_fitting(body).unwrap().pixels[0], opaque(RED));
    }
}

#[test]
fn registers_out_of_range_fall_back_to_register_zero() {
    let image = decode_fitting("q#0;2;100;0;0#1#256@").unwrap();
    assert_eq!(image.pixels[0], opaque(RED));

    // Defining one paints with its color all the same, and keeps it nowhere.
    let image = decode_fitting("q#0;2;100;0;0#300;2;0;100;0@#300@").unwrap();
    assert_eq!(image.pixels[0], opaque(RGB8::new(0, 255, 0)));
    assert_eq!(image.pixels[1], opaque(RED));
}

#[test]
fn redefining_a_register_keeps_what_is_painted() {
    let image = decode_fitting("q#3;2;100;0;0@#3;2;0;100;0@#3@").unwrap();

    assert_eq!(image.pixels[0], opaque(RED));
    assert_eq!(image.pixels[1], opaque(RGB8::new(0, 255, 0)));
    assert_eq!(image.pixels[2], opaque(RGB8::new(0, 255, 0)));
}

#[test]
fn bits_run_from_top_to_bottom() {
    // 'A' is value 2, '_' is value 32.
    let image = decode_fitting("q#0;2;100;0;0A_").unwrap();

    for y in 0..6 {
        assert_eq!(image.pixels[2 * y].a == 255, y == 1);
        assert_eq!(image.pixels[2 * y + 1].a == 255, y == 5);
    }
}

#[test]
fn blank_columns_take_up_room() {
    let image = decode_fitting("q??-?").unwrap();

    assert_eq!((image.width, image.height), (2, 12));
    assert!(image.pixels.iter().all(|p| *p == RGBA8::new(0, 0, 0, 0)));
}

#[test]
fn newlines_alone_describe_no_image() {
    assert!(decode_fitting("q---$$").is_none());
}

#[test]
fn raster_attributes_alone_describe_an_image() {
    let image = decode_fitting("q\"1;1;3;2").unwrap();
    assert_eq!((image.width, image.height), (3, 2));
    assert_eq!(image.pixels.len(), 6);

    assert!(decode_fitting("q\"1;1;3").is_none());
    assert!(decode_fitting("q\"1;1;;2").is_none());
}

#[test]
fn larger_raster_attributes_win() {
    let image = decode_fitting("q\"1;1;3;20\"1;1;5;10").unwrap();

    assert_eq!((image.width, image.height), (5, 20));
}

#[test]
fn data_may_reach_past_the_raster() {
    let image = decode_fitting("q\"1;1;1;1!3~-@").unwrap();

    assert_eq!((image.width, image.height), (3, 12));
}

#[test]
fn a_repeat_without_a_count_paints_once() {
    assert_eq!(decode_fitting("q!~").unwrap().width, 1);
    assert_eq!(decode_fitting("q!0~").unwrap().width, 1);
}

#[test]
fn a_repeat_without_data_is_dropped() {
    let image = decode_fitting("q!5$~").unwrap();
    assert_eq!(image.width, 1);

    assert!(decode_fitting("q!5").is_none());
}

#[test]
fn a_repeat_paints_what_its_columns_paint() {
    assert_eq!(
        decode_fitting("q#2!4a-!12F"),
        decode_fitting("q#2aaaa-FFFFFFFFFFFF")
    );
}

#[test]
fn padding_between_commands_changes_nothing() {
    let plain = decode_fitting("q\"1;1;4;9#1;2;10;20;30!3A$#2B-~");

    assert_eq!(
        decode_fitting("q \"1;1;4;9\r#1;2;10;20;30 !3A\t$ #2 B\n-\u{0} ~ "),
        plain
    );
}

#[test]
fn macro_parameters_have_no_effect() {
    assert_eq!(decode_fitting("0;1;0q#1~"), decode_fitting("q#1~"));
    // The first introducer counts; a later one is a data character.
    assert_eq!(decode_fitting("qqq").unwrap().width, 2);
}

#[test]
fn sixel_data_follows_the_first_introducer() {
    assert_eq!(sixel_data("1;2q#é~q"), Some(chars("#é~q")));
    assert_eq!(sixel_data("q"), Some(Vec::new()));
    assert_eq!(sixel_data("1;2"), None);
}

#[test]
fn painted_pixels_are_opaque_and_the_rest_transparent() {
    let image = decode_fitting("q#1;2;10;20;30AB-CD!7e").unwrap();

    for pixel in &image.pixels {
        assert!(*pixel == RGBA8::new(0, 0, 0, 0) || pixel.a == 255);
    }
}

#[test]
fn the_conversion_moves_no_pixels() {
    let body = "q#1;1;10;20;30AB$#2C-D";
    let a = decode(body, hls).unwrap();
    let b = decode(body, |_, _, _| RGB8::new(9, 9, 9)).unwrap();

    assert_eq!((a.width, a.height), (b.width, b.height));
    assert!(a.pixels.iter().zip(&b.pixels).all(|(p, q)| p.a == q.a));
    assert_eq!(a.pixels[0], RGBA8::new(0, 0, 0, 0));
    assert_eq!(a.pixels[1], RGBA8::new(10, 20, 30, 255));
    assert_eq!(b.pixels[1], RGBA8::new(9, 9, 9, 255));
}

#[test]
fn oversized_images_do_not_fit() {
    assert!(!fits("q\"1;1;99999999999999999999;99999999999999999999"));
    assert!(!fits("q\"1;1;99999999999999999999;1"));
    assert!(!fits("q!99999999999999999999~"));
    assert!(!fits("q!99999999999999999999~~"));
    // Without a height there is nothing to hold.
    assert!(fits("q\"1;1;99999999999999999999;0"));
    assert!(decode_fitting("q\"1;1;99999999999999999999;0").is_none());
    assert!(fits("no introducer"));
}

#[test]
fn numbers_parse_up_to_the_first_non_digit() {
    let text = chars("x042;7");

    assert_eq!(parse_number(&text, 1), (42, 4));
    assert_eq!(parse_number(&text, 0), (0, 0));
    assert_eq!(parse_number(&text, 6), (0, 6));
    assert_eq!(parse_number(&text, 9), (0, 9));
}

#[test]
fn numbers_saturate() {
    let largest = format!("{}", usize::MAX);
    assert_eq!(
        parse_number(&chars(&largest), 0),
        (usize::MAX, largest.len())
    );

    let larger = format!("{}0", usize::MAX);
    assert_eq!(parse_number(&chars(&larger), 0), (usize::MAX, larger.len()));

    let zeros = format!("{}5", "0".repeat(40));
    assert_eq!(parse_number(&chars(&zeros), 0), (5, 41));
}

#[test]
fn parameters_parse_behind_a_separator() {
    let text = chars(";12;;x");

    assert_eq!(parse_param(&text, 0), (12, 3));
    assert_eq!(parse_param(&text, 3), (0, 4));
    assert_eq!(parse_param(&text, 4), (0, 5));
    assert_eq!(parse_param(&text, 5), (0, 5));
    assert_eq!(parse_param(&text, 6), (0, 6));
}

#[test]
fn percentages_round_and_cap() {
    assert_eq!(percent_to_u8(0), 0);
    assert_eq!(percent_to_u8(1), 3);
    assert_eq!(percent_to_u8(13), 33);
    assert_eq!(percent_to_u8(30), 77);
    assert_eq!(percent_to_u8(99), 252);
    assert_eq!(percent_to_u8(100), 255);
    assert_eq!(percent_to_u8(101), 255);
    assert_eq!(percent_to_u8(usize::MAX), 255);
    assert!((0..100).all(|v| percent_to_u8(v) <= percent_to_u8(v + 1)));
}

#[test]
fn the_default_palette_is_that_of_the_vt340() {
    let palette = default_palette();

    assert_eq!(palette.len(), 256);
    assert_eq!(palette[0], RGB8::new(0, 0, 0));
    assert_eq!(palette[1], RGB8::new(51, 51, 204));
    assert_eq!(palette[2], RGB8::new(204, 33, 33));
    assert_eq!(palette[15], RGB8::new(204, 204, 204));
    assert!(palette[16..].iter().all(|c| *c == RGB8::new(0, 0, 0)));
}

fn read_all(text: &str) -> Vec<Command> {
    let text = chars(text);
    let mut commands = Vec::new();
    let mut i = 0;
    while i < text.len() {
        let (command, next) = read_command(&text, i);
        commands.push(command);
        i = next;
    }
    commands
}

#[test]
fn commands_are_read_one_by_one() {
    assert_eq!(
        read_all("#7;1;30;50;60#8\"1;1;4;12!3@$-~ !5"),
        vec![
            Command::Define {
                register: 7,
                space: 1,
                x: 30,
                y: 50,
                z: 60
            },
            Command::Select { register: 8 },
            Command::Raster {
                width: 4,
                height: 12
            },
            Command::Paint { bits: 1, count: 3 },
            Command::Return,
            Command::NewLine,
            Command::Paint { bits: 63, count: 1 },
            Command::Skip,
            Command::Skip,
        ]
    );
}

#[test]
fn nothing_is_read_behind_the_end() {
    let text = chars("12");

    assert_eq!(read_color(&text, 5), (Command::Select { register: 0 }, 5));
    assert_eq!(
        read_raster(&text, 5),
        (
            Command::Raster {
                width: 0,
                height: 0
            },
            5
        )
    );
    assert_eq!(read_repeat(&text, 5), (Command::Skip, 5));
}

#[test]
fn a_stream_cut_between_commands_reads_the_same() {
    let (first, second) = ("#1;2;10;20;30!4A", "$\"1;1;9;9B");
    let mut pieces = read_all(first);
    pieces.extend(read_all(second));
    assert_eq!(read_all(&format!("{}{}", first, second)), pieces);

    // A count that waits for its character belongs to the second piece.
    assert_ne!(read_all("!4A"), [read_all("!4"), read_all("A")].concat());
}

#[test]
fn a_register_keeps_its_color_until_it_is_set_again() {
    let image = decode_fitting("q#5;2;100;0;0#6;2;0;100;0#7#999;2;0;0;100#5@").unwrap();

    assert_eq!(image.pixels[0], opaque(RED));

    let image = decode_fitting("q#5;2;100;0;0#5;2;0;100;0#7#5@").unwrap();

    assert_eq!(image.pixels[0], opaque(RGB8::new(0, 255, 0)));
}

#[test]
fn raster_attributes_come_in_any_order() {
    let image = decode_fitting("q\"1;1;3;20\"1;1;5;10@");

    assert_eq!(decode_fitting("q\"1;1;5;10\"1;1;3;20@"), image);
    assert_eq!(decode_fitting("q\"1;1;5;10\"1;1;3;20\"1;1;5;10@"), image);
}

#[test]
fn columns_add_up() {
    assert_eq!(decode_fitting("q#2!3A!4A"), decode_fitting("q#2!7A"));
}

#[test]
fn an_image_equals_its_clone() {
    let image = decode_fitting("q\"1;1;4;12#1~").unwrap();

    assert_eq!(image.clone(), image);
}

/// All that a decoder holds.
fn state(decoder: &Decoder) -> (Vec<RGB8>, RGB8, Vec<Vec<RGBA8>>, [usize; 6]) {
    (
        decoder.palette.clone(),
        decoder.color,
        decoder.rows.clone(),
        [
            decoder.x,
            decoder.band,
            decoder.max_width,
            decoder.max_height,
            decoder.declared_width,
            decoder.declared_height,
        ],
    )
}

fn ran(pieces: &[&str]) -> Decoder {
    let mut decoder = Decoder::new();
    for piece in pieces {
        decoder.run(&chars(piece), &hls);
    }
    decoder
}

#[test]
fn a_stream_may_be_run_in_pieces() {
    let whole = ran(&["#1;2;10;20;30!4A-#2B\"1;1;9;20$#1C"]);
    let pieces = ran(&["#1;2;10;20;30!4A", "-#2B\"1;1;9;20", "", "$#1C"]);

    assert_eq!(state(&whole), state(&pieces));
    assert_eq!(whole.into_image(), pieces.into_image());
}

#[test]
fn a_decoder_keeps_only_the_rows_it_paints_on() {
    // `C` is value 4: only the third pixel of the band is set.
    let decoder = ran(&["-?!2C?"]);

    let lens: Vec<usize> = decoder.rows.iter().map(|row| row.len()).collect();
    assert_eq!(lens, vec![0, 0, 0, 0, 0, 0, 0, 0, 3]);
    assert_eq!((decoder.x, decoder.band), (4, 6));
    assert_eq!((decoder.max_width, decoder.max_height), (4, 12));

    assert!(ran(&["!3?-$ ;5"]).rows.is_empty());
}

#[test]
fn a_handler_takes_any_start() {
    let text = chars("5~");
    let mut decoder = ran(&["#3A"]);
    let before = state(&decoder);

    assert_eq!(decoder.handle_repeat(&text, 9), 9);
    assert_eq!(decoder.handle_raster(&text, 9), 9);
    assert_eq!(state(&decoder), before);

    assert_eq!(decoder.handle_color(&text, 9, &hls), 9);
    assert_eq!(decoder.color, RGB8::new(0, 0, 0));

    assert_eq!(decoder.handle_repeat(&text, 0), 2);
    assert_eq!(decoder.x, 6);
}

#[test]
fn a_decoder_repeats_and_adds_columns() {
    assert_eq!(state(&ran(&["#2!5a"])), state(&ran(&["#2aaaaa"])));

    let mut twice = ran(&["#2"]);
    twice.put_sixel(34, 2);
    twice.put_sixel(34, 3);
    let mut once = ran(&["#2"]);
    once.put_sixel(34, 5);
    assert_eq!(state(&twice), state(&once));
}

#[test]
fn a_decoder_takes_raster_attributes_in_any_order() {
    let ab = ran(&["A\"1;1;3;20\"1;1;5;10"]);
    let ba = ran(&["A\"1;1;5;10\"1;1;3;20"]);
    let again = ran(&["A\"1;1;5;10\"1;1;3;20\"1;1;5;10"]);

    assert_eq!(state(&ab), state(&ba));
    assert_eq!(state(&ba), state(&again));
}

#[test]
fn each_definition_paints_with_the_color_it_was_given() {
    let calls = Cell::new(0);
    let counting = |_: usize, _: usize, _: usize| {
        calls.set(calls.get() + 1);
        RGB8::new(calls.get(), 0, 0)
    };

    let image = decode("q#1;1;5;5;5@#1;1;5;5;5@#2@#1@", counting).unwrap();

    assert_eq!(image.pixels[0], RGBA8::new(1, 0, 0, 255));
    assert_eq!(image.pixels[1], RGBA8::new(2, 0, 0, 255));
    assert_eq!(image.pixels[2], RGBA8::new(204, 33, 33, 255));
    assert_eq!(image.pixels[3], RGBA8::new(2, 0, 0, 255));
    assert!(image.pixels[4..].iter().all(|p| *p == RGBA8::new(0, 0, 0, 0)));
}

#[test]
fn a_stream_paints_just_if_it_has_a_data_character() {
    for text in ["#1;2;3;4;5$-", "\"1;1;9;9!12", " ;12", "!5!6!"] {
        assert!(!read_all(text)
            .iter()
            .any(|command| matches!(command, Command::Paint { .. })));
        assert_eq!(ran(&[text]).max_width, 0);
    }
    for text in ["#1;2;3;4;5~", "\"1;1;9;9!12?", "!0A"] {
        assert!(read_all(text)
            .iter()
            .any(|command| matches!(command, Command::Paint { .. })));
        assert!(ran(&[text]).into_image().is_some());
    }
}
