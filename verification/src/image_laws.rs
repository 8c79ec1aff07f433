//! What is decoded from a stream that was written on purpose: writing undone by
//! reading, and the image that comes of it.

use rgb::{Rgba, RGB8};
use vstd::prelude::*;

use crate::laws::{command_ends_at, law_stream_in_two_pieces};
use crate::painting_laws::{
    has_percentages, inks_of, law_bands_are_six_rows_apart, law_color_commands_say_the_color,
    law_last_setting_decides, law_new_picture_is_clear, law_picture_is_painted_with_its_inks,
    law_pixels_not_set_stay, law_size_is_the_larger, sets_pixel,
};
use crate::picture::{
    body_fits, computes, layout_of, may_lead, painted_with, picture_of, Hls, Ink, Layout, Picture,
};
use crate::reading_laws::{
    digit_stands_at, digits_between, law_color_command_is_read, law_commands_follow_each_other,
    law_data_stands_behind_first_introducer, law_first_character_tells,
    law_raster_command_is_read, law_repeat_command_is_read, law_written_number_reads_back,
    number_follows, number_worth, numbers_at, numeral, stands_at, worth,
};
use crate::sixel::{decodes, lemma_index_of_pixel, Decoder, Image};
use crate::stream::{command_at, commands, data, Command};

verus! {

/// Numbers written one behind the other, with a `;` between any two.
pub open spec fn listed(numbers: Seq<usize>) -> Seq<char>
    decreases numbers.len(),
{
    if numbers.len() == 0 {
        Seq::empty()
    } else if numbers.len() == 1 {
        numeral(numbers[0] as nat)
    } else {
        listed(numbers.drop_last()) + seq![';'] + numeral(numbers.last() as nat)
    }
}

/// A command written down.
pub open spec fn written_command(command: Command) -> Seq<char> {
    match command {
        Command::Select { register } => seq!['#'] + listed(seq![register]),
        Command::Define { register, space, x, y, z } => seq!['#'] + listed(
            seq![register, space, x, y, z],
        ),
        Command::Raster { width, height } => seq!['"'] + listed(
            seq![1usize, 1usize, width, height],
        ),
        Command::Paint { bits, count } => seq!['!'] + numeral(count as nat) + seq![
            (63 + bits) as char,
        ],
        Command::Return => seq!['$'],
        Command::NewLine => seq!['-'],
        Command::Skip => seq![' '],
    }
}

/// Commands written down, one behind the other.
pub open spec fn written(commands: Seq<Command>) -> Seq<char>
    decreases commands.len(),
{
    if commands.len() == 0 {
        Seq::empty()
    } else {
        written_command(commands.first()) + written(commands.drop_first())
    }
}

/// Whether a command can be written down: a column has six pixels, and at least
/// one column is painted.
pub open spec fn is_writable(command: Command) -> bool {
    command matches Command::Paint { bits, count } ==> bits < 64 && count > 0
}

/// The first numbers of a list are a list, and the next one stands behind a `;`.
proof fn lemma_listed_first(numbers: Seq<usize>, k: int)
    requires
        0 < k <= numbers.len(),
    ensures
        listed(numbers.take(k)).len() <= listed(numbers).len(),
        listed(numbers).take(listed(numbers.take(k)).len() as int) == listed(numbers.take(k)),
        k < numbers.len() ==> listed(numbers.take(k)).len() < listed(numbers).len() && listed(
            numbers,
        )[listed(numbers.take(k)).len() as int] == ';',
    decreases numbers.len(),
{
    if k == numbers.len() {
        assert(numbers.take(k) =~= numbers);
        assert(listed(numbers).take(listed(numbers).len() as int) =~= listed(numbers));
    } else {
        let init = numbers.drop_last();
        lemma_listed_first(init, k);
        assert(init.take(k) =~= numbers.take(k));
        let n = listed(numbers.take(k)).len() as int;
        assert(listed(numbers).take(n) =~= listed(init).take(n));
        if k == init.len() {
            assert(init.take(k) =~= init);
        }
    }
}

/// Numbers that are written down as a list, behind anything and before anything
/// that does not carry them on, read back as themselves.
pub proof fn law_written_numbers_read_back(
    front: Seq<char>,
    numbers: Seq<usize>,
    back: Seq<char>,
    most: nat,
) -> (ends: Seq<int>)
    requires
        1 <= numbers.len() <= most,
        !digit_stands_at(back, 0),
        numbers.len() < most ==> !stands_at(back, 0, ';'),
    ensures
        numbers_at(front + listed(numbers) + back, front.len() as int, ends, most),
        ends.len() == numbers.len(),
        ends.last() == front.len() + listed(numbers).len(),
        forall|k: int|
            0 <= k < most ==> #[trigger] number_worth(
                front + listed(numbers) + back,
                front.len() as int,
                ends,
                k,
            ) == if k < numbers.len() {
                numbers[k]
            } else {
                0
            },
{
    let chars = front + listed(numbers) + back;
    let i = front.len() as int;
    let ends = listed_ends(i, numbers);
    assert(numbers.take(numbers.len() as int) =~= numbers);
    let last = i + listed(numbers).len();
    assert(last < chars.len() ==> chars[last] == back[0]);
    lemma_listed_number(front, numbers, back, 0);
    assert forall|k: int| 0 < k < ends.len() implies #[trigger] number_follows(chars, ends, k) by {
        lemma_listed_number(front, numbers, back, k);
    }
    assert forall|k: int| 0 <= k < most implies #[trigger] number_worth(chars, i, ends, k) == if k
        < numbers.len() {
        numbers[k]
    } else {
        0
    } by {
        if k < numbers.len() {
            lemma_listed_number(front, numbers, back, k);
        }
    }
    ends
}

/// Where each number of a list ends that begins at `i`.
spec fn listed_ends(i: int, numbers: Seq<usize>) -> Seq<int> {
    Seq::new(numbers.len(), |k: int| i + listed(numbers.take(k + 1)).len())
}

/// A number of a list stands between its ends.
proof fn lemma_listed_number(front: Seq<char>, numbers: Seq<usize>, back: Seq<char>, k: int)
    requires
        0 <= k < numbers.len(),
    ensures
        ({
            let chars = front + listed(numbers) + back;
            let ends = listed_ends(front.len() as int, numbers);
            let from = if k == 0 {
                front.len() as int
            } else {
                ends[k - 1] + 1
            };
            &&& digits_between(chars, from, ends[k])
            &&& worth(chars, from, ends[k]) == numbers[k]
            &&& k > 0 ==> number_follows(chars, ends, k)
        }),
{
    let chars = front + listed(numbers) + back;
    let i = front.len() as int;
    let ends = listed_ends(i, numbers);
    lemma_listed_first(numbers, k + 1);
    law_written_number_reads_back(numbers[k] as nat);
    let n = numeral(numbers[k] as nat);
    let part = numbers.take(k + 1);
    let size = listed(part).len() as int;
    let from = if k == 0 {
        i
    } else {
        ends[k - 1] + 1
    };
    assert(part.last() == numbers[k]);
    if k > 0 {
        lemma_listed_first(numbers, k);
        assert(part.drop_last() =~= numbers.take(k));
        assert(chars[ends[k - 1]] == listed(numbers)[listed(numbers.take(k)).len() as int]);
    }
    assert(from == i + size - n.len());
    assert forall|j: int| 0 <= j < n.len() implies chars[from + j] == n[j] by {
        assert(listed(part)[size - n.len() + j] == n[j]);
        assert(listed(numbers).take(size)[size - n.len() + j] == listed(numbers)[size - n.len()
            + j]);
    }
    assert(chars.subrange(from, ends[k]) =~= n);
    assert forall|j: int| from <= j < ends[k] implies '0' <= #[trigger] chars[j] <= '9' by {
        assert(chars[from + (j - from)] == n[j - from]);
    }
}

/// A command that is written down reads back as itself, whatever command stands
/// behind it.
proof fn lemma_written_command(command: Command, back: Seq<char>)
    requires
        is_writable(command),
        !digit_stands_at(back, 0),
        !stands_at(back, 0, ';'),
    ensures
        command_at(written_command(command) + back, 0) == (
            command,
            written_command(command).len() as int,
        ),
        written_command(command).len() > 0,
        !digit_stands_at(written_command(command), 0),
        !stands_at(written_command(command), 0, ';'),
{
    let chars = written_command(command) + back;
    law_first_character_tells(chars, 0);
    match command {
        Command::Select { register } => {
            let ends = law_written_numbers_read_back(seq!['#'], seq![register], back, 5);
            assert(seq!['#'] + listed(seq![register]) + back =~= chars);
            law_color_command_is_read(chars, 1, ends);
            assert(number_worth(chars, 1, ends, 0) == register);
        },
        Command::Define { register, space, x, y, z } => {
            let numbers = seq![register, space, x, y, z];
            let ends = law_written_numbers_read_back(seq!['#'], numbers, back, 5);
            assert(seq!['#'] + listed(numbers) + back =~= chars);
            law_color_command_is_read(chars, 1, ends);
            assert(number_worth(chars, 1, ends, 0) == numbers[0]);
            assert(number_worth(chars, 1, ends, 1) == numbers[1]);
            assert(number_worth(chars, 1, ends, 2) == numbers[2]);
            assert(number_worth(chars, 1, ends, 3) == numbers[3]);
            assert(number_worth(chars, 1, ends, 4) == numbers[4]);
        },
        Command::Raster { width, height } => {
            let numbers = seq![1usize, 1usize, width, height];
            let ends = law_written_numbers_read_back(seq!['"'], numbers, back, 4);
            assert(seq!['"'] + listed(numbers) + back =~= chars);
            law_raster_command_is_read(chars, 1, ends);
            assert(number_worth(chars, 1, ends, 2) == numbers[2]);
            assert(number_worth(chars, 1, ends, 3) == numbers[3]);
        },
        Command::Paint { bits, count } => {
            let n = numeral(count as nat);
            let end = 1 + n.len() as int;
            law_written_number_reads_back(count as nat);
            assert(chars[end] as int == 63 + bits);
            assert forall|k: int| 1 <= k < end implies '0' <= #[trigger] chars[k] <= '9' by {
                assert(chars[k] == n[k - 1]);
            }
            law_repeat_command_is_read(chars, 1, end);
            assert(chars.subrange(1, end) =~= n);
        },
        _ => {},
    }
}

/// Commands that are written down read back as themselves.
pub proof fn law_written_commands_read_back(list: Seq<Command>)
    requires
        forall|k: int| 0 <= k < list.len() ==> is_writable(#[trigger] list[k]),
    ensures
        commands(written(list)) == list,
        !digit_stands_at(written(list), 0),
        !stands_at(written(list), 0, ';'),
    decreases list.len(),
{
    if list.len() == 0 {
        law_commands_follow_each_other(written(list), 0);
        assert(commands(written(list)) =~= list);
    } else {
        let rest = list.drop_first();
        assert forall|k: int| 0 <= k < rest.len() implies is_writable(#[trigger] rest[k]) by {
            assert(rest[k] == list[k + 1]);
        }
        law_written_commands_read_back(rest);
        let first = written_command(list[0]);
        let second = written(rest);
        lemma_written_command(list[0], second);
        lemma_written_command(list[0], Seq::empty());
        assert(first + Seq::empty() =~= first);
        assert(first + second == written(list));
        assert(command_ends_at(first + second, first.len() as int, first.len() as int));
        assert(command_ends_at(first + second, 0, first.len() as int));
        let hls: Hls = |h: usize, l: usize, s: usize| RGB8 { r: 0, g: 0, b: 0 };
        law_stream_in_two_pieces(Picture::initial(), first, second, hls);
        law_commands_follow_each_other(first, 0);
        law_commands_follow_each_other(first, first.len() as int);
        assert(commands(first) =~= seq![list[0]]);
        assert(commands(written(list)) =~= list);
        assert(written(list)[0] == first[0]);
    }
}

/// What is decoded from a body: nothing without a `q`, or where the picture has
/// no width or no height; else an image of the picture's size, row by row from
/// the top and from left to right in each row, pixel by pixel that of the
/// picture.
pub proof fn law_decoded_image_is_the_picture<F: Fn(usize, usize, usize) -> RGB8>(
    body: Seq<char>,
    chars: Seq<char>,
    f: F,
    decoded: Option<Image>,
    hls: Hls,
    x: int,
    y: int,
)
    requires
        decodes(body, f, decoded),
    ensures
        !body.contains('q') ==> decoded is None,
        data(body) == Some(chars) ==> {
            let layout = Layout::initial().after(commands(chars));
            &&& decoded is None <==> layout.width() * layout.height() == 0
            &&& decoded matches Some(image) ==> {
                &&& image.width == layout.width()
                &&& image.height == layout.height()
                &&& image.pixels@.len() == image.width * image.height
                &&& 0 <= x < image.width && 0 <= y < image.height && computes(
                    f,
                    hls,
                    commands(chars),
                ) ==> image.pixels@[y * image.width + x] == (Picture::initial().after(
                    commands(chars),
                    hls,
                ).canvas)(x, y)
            }
        },
{
    law_data_stands_behind_first_introducer(body, 0);
    if data(body) == Some(chars) {
        law_size_is_the_larger(Layout::initial().after(commands(chars)));
        if let Some(image) = decoded {
            if 0 <= x < image.width && 0 <= y < image.height {
                assert(image.pixel(x, y) == image.pixels@[y * image.width + x]);
            }
        }
    }
}

/// Whatever the conversion does, what is decoded is painted with inks that the
/// commands lead through, beginning with those of a new picture.
pub proof fn law_decoded_image_is_painted_with_inks<F: Fn(usize, usize, usize) -> RGB8>(
    body: Seq<char>,
    chars: Seq<char>,
    f: F,
    image: Image,
) -> (inks: Seq<Ink>)
    requires
        decodes(body, f, Some(image)),
        data(body) == Some(chars),
    ensures
        may_lead(inks, commands(chars), f),
        inks[0] == Ink::initial(),
        forall|x: int, y: int|
            0 <= x < image.width && 0 <= y < image.height ==> #[trigger] image.pixels@[y
                * image.width + x] == painted_with(
                Picture::initial().canvas,
                Layout::initial(),
                commands(chars),
                inks,
            )(x, y),
        forall|k: int|
            0 <= k < image.pixels@.len() ==> #[trigger] image.pixels@[k].a == 255
                || image.pixels@[k] == (Rgba { r: 0u8, g: 0u8, b: 0u8, a: 0u8 }),
{
    let inks = choose|inks: Seq<Ink>| #[trigger]
        may_lead(inks, commands(chars), f) && inks.first() == Ink::initial() && image.shows(
            painted_with(
                crate::picture::blank_canvas(),
                Layout::initial(),
                commands(chars),
                inks,
            ),
        );
    assert forall|x: int, y: int| 0 <= x < image.width && 0 <= y < image.height implies
        #[trigger] image.pixels@[y * image.width + x] == painted_with(
        Picture::initial().canvas,
        Layout::initial(),
        commands(chars),
        inks,
    )(x, y) by {
        assert(image.pixel(x, y) == image.pixels@[y * image.width + x]);
    }
    inks
}

/// A pixel of a decoded image has the color that was current at the command that
/// was the last to set it, and is fully opaque; one that no command sets is
/// transparent.
pub proof fn law_decoded_pixels_are_those_set<F: Fn(usize, usize, usize) -> RGB8>(
    body: Seq<char>,
    chars: Seq<char>,
    f: F,
    image: Image,
    hls: Hls,
    k: int,
    x: int,
    y: int,
)
    requires
        decodes(body, f, Some(image)),
        data(body) == Some(chars),
        computes(f, hls, commands(chars)),
        0 <= x < image.width,
        0 <= y < image.height,
    ensures
        (forall|j: int|
            0 <= j < commands(chars).len() ==> !sets_pixel(
                Layout::initial(),
                commands(chars),
                j,
                x,
                y,
            )) ==> image.pixels@[y * image.width + x] == (Rgba { r: 0u8, g: 0u8, b: 0u8, a: 0u8 }),
        0 <= k < commands(chars).len() && sets_pixel(Layout::initial(), commands(chars), k, x, y)
            && (forall|j: int|
            k < j < commands(chars).len() ==> !sets_pixel(
                Layout::initial(),
                commands(chars),
                j,
                x,
                y,
            )) ==> ({
            let color = inks_of(Picture::initial(), commands(chars), hls)[k].color;
            image.pixels@[y * image.width + x] == (Rgba {
                r: color.r,
                g: color.g,
                b: color.b,
                a: 255u8,
            })
        }),
{
    let list = commands(chars);
    let start = Picture::initial();
    let inks = inks_of(start, list, hls);
    law_decoded_image_is_the_picture(body, chars, f, Some(image), hls, x, y);
    law_picture_is_painted_with_its_inks(start, list, hls);
    law_new_picture_is_clear(x, y);
    if forall|j: int| 0 <= j < list.len() ==> !sets_pixel(Layout::initial(), list, j, x, y) {
        law_pixels_not_set_stay(start.canvas, start.layout, list, inks, x, y);
    }
    if 0 <= k < list.len() && sets_pixel(Layout::initial(), list, k, x, y) && (forall|j: int|
        k < j < list.len() ==> !sets_pixel(Layout::initial(), list, j, x, y)) {
        law_last_setting_decides(start.canvas, start.layout, list, inks, k, x, y);
    }
}

/// A command behind `n` graphics newlines sets pixels in the six rows from
/// `6 * n` only.
pub proof fn law_newlines_count_bands_of_six(commands: Seq<Command>, k: int, x: int, y: int)
    requires
        0 <= k < commands.len(),
        sets_pixel(Layout::initial(), commands, k, x, y),
    ensures
        ({
            let n = commands.take(k).filter(|command: Command| command is NewLine).len();
            6 * n <= y < 6 * n + 6
        }),
{
    law_bands_are_six_rows_apart(Layout::initial(), commands.take(k));
}

/// Raster attributes alone describe a transparent image of the width and height
/// that they write down, and none if one of the two is zero.
pub proof fn law_written_size_is_decoded<F: Fn(usize, usize, usize) -> RGB8>(
    width: usize,
    height: usize,
    f: F,
    decoded: Option<Image>,
)
    requires
        decodes(
            seq!['q', '"'] + listed(seq![1usize, 1usize, width, height]),
            f,
            decoded,
        ),
    ensures
        decoded is None <==> width == 0 || height == 0,
        decoded matches Some(image) ==> {
            &&& image.width == width
            &&& image.height == height
            &&& image.pixels@.len() == width * height
            &&& forall|k: int|
                0 <= k < image.pixels@.len() ==> #[trigger] image.pixels@[k] == (Rgba {
                    r: 0u8,
                    g: 0u8,
                    b: 0u8,
                    a: 0u8,
                })
        },
{
    let raster = Command::Raster { width, height };
    let list = seq![raster];
    law_written_commands_read_back(list);
    let chars = written(list);
    assert(list.drop_first() =~= Seq::<Command>::empty());
    assert(written(list.drop_first()) =~= Seq::<char>::empty());
    assert(chars =~= seq!['"'] + listed(seq![1usize, 1usize, width, height]));
    let body = seq!['q', '"'] + listed(seq![1usize, 1usize, width, height]);
    assert(body.skip(1) =~= chars);
    assert(body.take(0).len() == 0);
    law_data_stands_behind_first_introducer(body, 0);
    assert(list.drop_last() =~= Seq::<Command>::empty());
    let layout = Layout::initial().after(list);
    assert(layout == Layout::initial().after(list.drop_last()).step(raster));
    law_size_is_the_larger(layout);
    let hls: Hls = |h: usize, l: usize, s: usize| RGB8 { r: 0, g: 0, b: 0 };
    law_decoded_image_is_the_picture(body, chars, f, decoded, hls, 0, 0);
    assert(width as int * height as int == 0 <==> width == 0 || height == 0) by (nonlinear_arith);
    if let Some(image) = decoded {
        assert forall|k: int| 0 <= k < image.pixels@.len() implies #[trigger] image.pixels@[k] == (
        Rgba { r: 0u8, g: 0u8, b: 0u8, a: 0u8 }) by {
            lemma_index_of_pixel(width as int, height as int, k);
            let (x, y) = (k % (width as int), k / (width as int));
            law_decoded_pixels_are_those_set(body, chars, f, image, hls, 0, x, y);
        }
    }
}

/// A color written down as percentages of red, green and blue, and a data
/// character repeated `count` times in it: an image of `count` columns and six
/// rows, in which row `y` has the color, each channel the level of its own
/// percentage, just if binary digit `y` of the character is one.
pub proof fn law_written_columns_are_decoded<F: Fn(usize, usize, usize) -> RGB8>(
    register: usize,
    red: usize,
    green: usize,
    blue: usize,
    bits: u8,
    count: usize,
    f: F,
    image: Image,
    x: int,
    y: int,
)
    requires
        bits < 64,
        count > 0,
        decodes(
            seq!['q'] + written(
                seq![
                    Command::Define { register, space: 2, x: red, y: green, z: blue },
                    Command::Paint { bits, count },
                ],
            ),
            f,
            Some(image),
        ),
        0 <= x < count,
        0 <= y < 6,
    ensures
        image.width == count,
        image.height == 6,
        ({
            let pixel = image.pixels@[y * count + x];
            if (bits as int / vstd::arithmetic::power2::pow2(y as nat) as int) % 2 == 1 {
                pixel.a == 255 && has_percentages(
                    RGB8 { r: pixel.r, g: pixel.g, b: pixel.b },
                    red,
                    green,
                    blue,
                )
            } else {
                pixel == (Rgba { r: 0u8, g: 0u8, b: 0u8, a: 0u8 })
            }
        }),
{
    let define = Command::Define { register, space: 2, x: red, y: green, z: blue };
    let paint = Command::Paint { bits, count };
    let list = seq![define, paint];
    law_written_commands_read_back(list);
    let chars = written(list);
    let body = seq!['q'] + chars;
    assert(body.skip(1) =~= chars);
    law_data_stands_behind_first_introducer(body, 0);
    let start = Layout::initial();
    assert(list.take(0) =~= Seq::<Command>::empty());
    assert(list.take(1) =~= seq![define]);
    assert(list.drop_last() =~= seq![define]);
    assert(seq![define].drop_last() =~= Seq::<Command>::empty());
    assert(start.after(seq![define]) == start.after(seq![define].drop_last()).step(define));
    assert(start.after(seq![define]) == start);
    assert(start.after(list) == start.after(list.drop_last()).step(paint));
    let hls: Hls = |h: usize, l: usize, s: usize| RGB8 { r: 0, g: 0, b: 0 };
    law_size_is_the_larger(start.after(list));
    law_decoded_image_is_the_picture(body, chars, f, Some(image), hls, x, y);
    law_color_commands_say_the_color(Picture::initial(), list, hls, 0, 0);
    law_decoded_pixels_are_those_set(body, chars, f, image, hls, 1, x, y);
}

/// A body fits the machine if it has no `q`, and else just if the counters and
/// the bytes of the pixels of the picture behind it do. That picture is what the
/// commands behind the `q` make of a new one.
pub proof fn law_body_fits_if_its_image_does(body: Seq<char>, chars: Seq<char>, hls: Hls)
    ensures
        !body.contains('q') ==> body_fits(body),
        data(body) == Some(chars) ==> {
            let layout = Layout::initial().after(commands(chars));
            body_fits(body) <==> layout.band <= usize::MAX && layout.reached_width <= usize::MAX
                && layout.reached_height <= usize::MAX && 4 * (layout.width() * layout.height())
                <= isize::MAX
        },
        layout_of(chars) == Layout::initial().after(commands(chars)),
        picture_of(chars, hls) == Picture::initial().after(commands(chars), hls),
{
    law_data_stands_behind_first_introducer(body, 0);
    law_size_is_the_larger(Layout::initial().after(commands(chars)));
}

/// A decoder's picture is made of its fields, each for itself: the counters are
/// those of the layout, the palette and the color those of the ink, and a pixel
/// stands in its row at its column, or is transparent where the rows do not
/// reach.
pub proof fn law_decoder_shows_its_fields(decoder: Decoder, x: int, y: int)
    ensures
        decoder.picture().layout == decoder.layout(),
        decoder.picture().ink == decoder.ink(),
        decoder.picture().canvas == decoder.canvas(),
        decoder.layout().x == decoder.x,
        decoder.layout().band == decoder.band,
        decoder.layout().reached_width == decoder.max_width,
        decoder.layout().reached_height == decoder.max_height,
        decoder.layout().declared_width == decoder.declared_width,
        decoder.layout().declared_height == decoder.declared_height,
        decoder.layout().rows == decoder.rows@.len(),
        decoder.ink().registers == decoder.palette@,
        decoder.ink().color == decoder.color,
        decoder.wf() <==> decoder.picture().wf(),
        0 <= y < decoder.rows@.len() ==> (decoder.layout().columns)(y)
            == decoder.rows@[y]@.len(),
        !(0 <= y < decoder.rows@.len()) ==> (decoder.layout().columns)(y) == 0,
        decoder.canvas()(x, y) == if 0 <= y < decoder.rows@.len() && 0 <= x
            < decoder.rows@[y]@.len() {
            decoder.rows@[y]@[x]
        } else {
            Rgba { r: 0u8, g: 0u8, b: 0u8, a: 0u8 }
        },
{
}

} // verus!
