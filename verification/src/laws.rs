//! What holds of every sixel stream.

use rgb::RGB8;
use vstd::prelude::*;

use crate::picture::{
    computes, layout_of, lemma_advance_wf, lemma_layout_after_concat, lemma_layout_grows,
    lemma_layout_of_picture, lemma_painted_pixels, may_become, may_lead, may_yield, painted,
    percent_level, Canvas, Hls, Ink, Layout, Picture, REGISTERS,
};
use crate::pixel::{opaque, transparent};
use crate::sixel::{decodes, lemma_index_of_pixel, Decoder, Image};
use crate::stream::{
    command_at, commands, commands_from, data, decimal, digits_end, is_digit, is_sixel,
    lemma_command_end, lemma_digits_end, lemma_param_end, number_at, param_at, param_end,
    raster_command, repeat_command, separator_at, sixel_bits, Command,
};

verus! {

/// A body without the `q` introducer carries no sixel data.
pub proof fn law_no_introducer(body: Seq<char>)
    requires
        !body.contains('q'),
    ensures
        data(body) is None,
    decreases body.len(),
{
    if body.len() > 0 {
        assert(body[0] != 'q');
        assert(!body.drop_first().contains('q')) by {
            if body.drop_first().contains('q') {
                let k = choose|k: int|
                    0 <= k < body.drop_first().len() && body.drop_first()[k] == 'q';
                assert(body[k + 1] == 'q');
            }
        }
        law_no_introducer(body.drop_first());
    }
}

/// What stands before the introducer has no effect on the sixel data.
pub proof fn law_macro_parameters_ignored(parameters: Seq<char>, chars: Seq<char>)
    requires
        !parameters.contains('q'),
    ensures
        data(parameters + seq!['q'] + chars) == Some(chars),
    decreases parameters.len(),
{
    let body = parameters + seq!['q'] + chars;
    if parameters.len() == 0 {
        assert(body.first() == 'q');
        assert(body.drop_first() =~= chars);
    } else {
        assert(parameters[0] != 'q');
        assert(body.first() == parameters[0]);
        let rest = parameters.drop_first();
        assert(!rest.contains('q')) by {
            if rest.contains('q') {
                let k = choose|k: int| 0 <= k < rest.len() && rest[k] == 'q';
                assert(parameters[k + 1] == 'q');
            }
        }
        assert(body.drop_first() =~= rest + seq!['q'] + chars);
        law_macro_parameters_ignored(rest, chars);
    }
}

/// What stands before the introducer has no effect on what can be decoded,
/// whatever the conversion of hue, lightness and saturation does.
pub proof fn law_macro_parameters_decide_nothing<F: Fn(usize, usize, usize) -> RGB8>(
    parameters: Seq<char>,
    chars: Seq<char>,
    f: F,
    decoded: Option<Image>,
)
    requires
        !parameters.contains('q'),
    ensures
        decodes(parameters + seq!['q'] + chars, f, decoded) <==> decodes(
            seq!['q'] + chars,
            f,
            decoded,
        ),
{
    law_macro_parameters_ignored(parameters, chars);
    law_macro_parameters_ignored(Seq::empty(), chars);
    assert(Seq::empty() + seq!['q'] + chars =~= seq!['q'] + chars);
}

/// What stands before the introducer has no effect on what is decoded, where
/// the conversion of hue, lightness and saturation gives one color for each of
/// the stream's arguments.
pub proof fn law_macro_parameters_do_not_show<F: Fn(usize, usize, usize) -> RGB8>(
    parameters: Seq<char>,
    chars: Seq<char>,
    f: F,
    hls: Hls,
    a: Option<Image>,
    b: Option<Image>,
)
    requires
        !parameters.contains('q'),
        computes(f, hls, commands(chars)),
        decodes(parameters + seq!['q'] + chars, f, a),
        decodes(seq!['q'] + chars, f, b),
    ensures
        a is Some <==> b is Some,
        a matches Some(image) ==> {
            &&& image.width == b->0.width
            &&& image.height == b->0.height
            &&& image.pixels@ == b->0.pixels@
        },
{
    law_macro_parameters_decide_nothing(parameters, chars, f, a);
    law_macro_parameters_ignored(Seq::empty(), chars);
    assert(Seq::empty() + seq!['q'] + chars =~= seq!['q'] + chars);
    if let (Some(image), Some(other)) = (a, b) {
        let width = image.width as int;
        assert forall|k: int| 0 <= k < image.pixels@.len() implies image.pixels@[k]
            == other.pixels@[k] by {
            lemma_index_of_pixel(width, image.height as int, k);
            assert(image.pixel(k % width, k / width) == other.pixel(k % width, k / width));
        }
        assert(image.pixels@ =~= other.pixels@);
    }
}

/// A percentage of at most a hundred lands on the nearest level, the larger one
/// where two are equally near.
pub proof fn law_percent_rounds_to_nearest(v: usize)
    requires
        v <= 100,
    ensures
        -50 < 100 * percent_level(v) - 255 * v <= 50,
{
}

/// A larger percentage never lands on a smaller level; none and all of it land
/// on the ends of the scale.
pub proof fn law_percent_is_monotone(v: usize, w: usize)
    requires
        v <= w,
    ensures
        percent_level(v) <= percent_level(w),
        percent_level(0) == 0,
        w >= 100 ==> percent_level(w) == 255,
{
}

/// A register that was set can be selected again, and no other register has
/// changed.
pub proof fn law_define_then_select(ink: Ink, register: usize, color: RGB8, other: usize)
    requires
        register < ink.registers.len(),
        other < ink.registers.len(),
    ensures
        ink.define(register, color).color == color,
        ink.define(register, color).select(register).color == color,
        other != register ==> ink.define(register, color).select(other).color == ink.select(
            other,
        ).color,
{
}

/// Whether a command sets `register`.
pub open spec fn defines(command: Command, register: usize) -> bool {
    command matches Command::Define { register: r, space, x, y, z } && r == register
}

/// Selecting a register gives the color that was last defined in it, whatever
/// commands came in between.
pub proof fn law_select_gives_last_definition<F: Fn(usize, usize, usize) -> RGB8>(
    inks: Seq<Ink>,
    commands: Seq<Command>,
    f: F,
    register: usize,
)
    requires
        may_lead(inks, commands, f),
        register < inks[0].registers.len(),
        commands.len() > 0,
        defines(commands[0], register),
        forall|k: int| 0 < k < commands.len() ==> !defines(#[trigger] commands[k], register),
    ensures
        inks.last().select(register).color == inks[1].color,
        commands[0] matches Command::Define { register: r, space, x, y, z } ==> may_yield(
            f,
            space,
            x,
            y,
            z,
            inks.last().select(register).color,
        ),
{
    lemma_register_stays(inks, commands, f, register, commands.len() as int);
}

/// A register that was set keeps its color while no command sets it again.
proof fn lemma_register_stays<F: Fn(usize, usize, usize) -> RGB8>(
    inks: Seq<Ink>,
    commands: Seq<Command>,
    f: F,
    register: usize,
    m: int,
)
    requires
        may_lead(inks, commands, f),
        register < inks[0].registers.len(),
        0 < m <= commands.len(),
        defines(commands[0], register),
        forall|k: int| 0 < k < commands.len() ==> !defines(#[trigger] commands[k], register),
    ensures
        inks[m].registers.len() == inks[0].registers.len(),
        inks[m].registers[register as int] == inks[1].color,
        commands[0] matches Command::Define { register: r, space, x, y, z } ==> may_yield(
            f,
            space,
            x,
            y,
            z,
            inks[1].color,
        ),
    decreases m,
{
    assert(may_become(inks[m - 1], commands[m - 1], f, inks[m]));
    assert(may_become(inks[0], commands[0], f, inks[1]));
    if m > 1 {
        lemma_register_stays(inks, commands, f, register, m - 1);
        assert(!defines(commands[m - 1], register));
    }
}

/// The picture after two runs of commands is the one that the second run makes
/// of the first one's.
pub proof fn law_commands_compose(
    picture: Picture,
    first: Seq<Command>,
    second: Seq<Command>,
    hls: Hls,
)
    ensures
        picture.after(first + second, hls) == picture.after(first, hls).after(second, hls),
    decreases second.len(),
{
    if second.len() == 0 {
        assert(first + second =~= first);
    } else {
        assert((first + second).drop_last() =~= first + second.drop_last());
        law_commands_compose(picture, first, second.drop_last(), hls);
    }
}

/// Whether command `k` sets the pixel at column `x` and row `y` where the
/// commands begin with `layout`.
pub open spec fn paints(
    layout: Layout,
    commands: Seq<Command>,
    k: int,
    x: int,
    y: int,
) -> bool {
    commands[k] matches Command::Paint { bits, count } && layout.after(commands.take(k)).covers(
        bits,
        count as nat,
        x,
        y,
    )
}

/// A pixel has the color that was current when a command last painted it.
pub proof fn law_last_paint_wins(
    picture: Picture,
    commands: Seq<Command>,
    hls: Hls,
    k: int,
    x: int,
    y: int,
)
    requires
        0 <= k < commands.len(),
        paints(picture.layout, commands, k, x, y),
        forall|j: int| k < j < commands.len() ==> !paints(picture.layout, commands, j, x, y),
    ensures
        (picture.after(commands, hls).canvas)(x, y) == opaque(
            picture.after(commands.take(k), hls).ink.color,
        ),
    decreases commands.len(),
{
    let init = commands.drop_last();
    lemma_layout_of_picture(picture, init, hls);
    assert(init =~= commands.take(commands.len() - 1));
    if k == commands.len() - 1 {
    } else {
        assert(init.take(k) =~= commands.take(k));
        assert forall|j: int| k < j < init.len() implies !paints(picture.layout, init, j, x, y) by {
            assert(init.take(j) =~= commands.take(j));
            assert(!paints(picture.layout, commands, j, x, y));
        }
        law_last_paint_wins(picture, init, hls, k, x, y);
        assert(!paints(picture.layout, commands, commands.len() - 1, x, y));
    }
}

/// A pixel that no command paints stays as it was; on a new canvas it stays
/// transparent.
pub proof fn law_unpainted_pixels_stay(
    picture: Picture,
    commands: Seq<Command>,
    hls: Hls,
    x: int,
    y: int,
)
    requires
        forall|j: int| 0 <= j < commands.len() ==> !paints(picture.layout, commands, j, x, y),
    ensures
        (picture.after(commands, hls).canvas)(x, y) == (picture.canvas)(x, y),
        picture == Picture::initial() ==> (picture.after(commands, hls).canvas)(x, y)
            == transparent(),
    decreases commands.len(),
{
    if commands.len() > 0 {
        let init = commands.drop_last();
        lemma_layout_of_picture(picture, init, hls);
        assert(init =~= commands.take(commands.len() - 1));
        assert forall|j: int| 0 <= j < init.len() implies !paints(
            picture.layout,
            init,
            j,
            x,
            y,
        ) by {
            assert(init.take(j) =~= commands.take(j));
            assert(!paints(picture.layout, commands, j, x, y));
        }
        law_unpainted_pixels_stay(picture, init, hls, x, y);
        assert(!paints(picture.layout, commands, commands.len() - 1, x, y));
    }
}

/// Every pixel of a stream's picture is transparent or fully opaque, and those
/// that are opaque lie inside the picture.
pub proof fn law_pixels_are_clear_or_opaque(commands: Seq<Command>, hls: Hls, x: int, y: int)
    ensures
        ({
            let picture = Picture::initial().after(commands, hls);
            let pixel = (picture.canvas)(x, y);
            ||| pixel == transparent()
            ||| pixel.a == 255 && 0 <= x < picture.layout.width() && 0 <= y
                < picture.layout.height()
        }),
    decreases commands.len(),
{
    if commands.len() > 0 {
        law_pixels_are_clear_or_opaque(commands.drop_last(), hls, x, y);
    }
}

/// How colors are converted decides neither the size of the picture nor which
/// of its pixels are painted.
pub proof fn law_colors_do_not_move_pixels(
    commands: Seq<Command>,
    hls: Hls,
    other: Hls,
    x: int,
    y: int,
)
    ensures
        ({
            let a = Picture::initial().after(commands, hls);
            let b = Picture::initial().after(commands, other);
            &&& a.layout == b.layout
            &&& (a.canvas)(x, y).a == (b.canvas)(x, y).a
        }),
    decreases commands.len(),
{
    if commands.len() > 0 {
        law_colors_do_not_move_pixels(commands.drop_last(), hls, other, x, y);
    }
}

/// A new picture is well formed, and no stream makes a well-formed picture
/// anything else: all of the registers stay, what is painted lies inside the
/// reached width and height, those are zero together, bands and height are
/// multiples of six, and pixels are transparent or fully opaque.
pub proof fn law_pictures_stay_well_formed(picture: Picture, chars: Seq<char>, hls: Hls)
    requires
        picture.wf(),
    ensures
        Picture::initial().wf(),
        picture.after(commands(chars), hls).wf(),
{
    lemma_counts_are_positive(chars, 0);
    lemma_commands_keep_wf(picture, commands(chars), hls);
}

/// Whether a command that paints columns paints at least one.
spec fn adds_columns(command: Command) -> bool {
    command matches Command::Paint { bits, count } ==> count > 0
}

/// Commands that paint at least one column, if any, keep a picture well formed.
proof fn lemma_commands_keep_wf(picture: Picture, commands: Seq<Command>, hls: Hls)
    requires
        picture.wf(),
        forall|k: int| 0 <= k < commands.len() ==> adds_columns(#[trigger] commands[k]),
    ensures
        picture.after(commands, hls).wf(),
    decreases commands.len(),
{
    if commands.len() > 0 {
        let init = commands.drop_last();
        assert forall|k: int| 0 <= k < init.len() implies adds_columns(#[trigger] init[k]) by {
            assert(init[k] == commands[k]);
        }
        assert(adds_columns(commands[commands.len() - 1]));
        lemma_commands_keep_wf(picture, init, hls);
        let before = picture.after(init, hls);
        if let Command::Paint { bits, count } = commands[commands.len() - 1] {
            lemma_advance_wf(before.layout, bits, count as nat);
            lemma_painted_pixels(
                before.canvas,
                before.layout,
                bits,
                count as nat,
                before.ink.color,
            );
        }
    }
}

/// The rows that data characters take up are whole bands of six.
pub proof fn law_bands_of_six(commands: Seq<Command>)
    ensures
        Layout::initial().after(commands).band % 6 == 0,
        Layout::initial().after(commands).reached_height % 6 == 0,
    decreases commands.len(),
{
    if commands.len() > 0 {
        law_bands_of_six(commands.drop_last());
    }
}

/// A picture is at least as large as each of its raster attributes declares.
pub proof fn law_raster_sizes_the_canvas(layout: Layout, commands: Seq<Command>, k: int)
    requires
        0 <= k < commands.len(),
    ensures
        commands[k] matches Command::Raster { width, height } ==> {
            &&& width <= layout.after(commands).width()
            &&& height <= layout.after(commands).height()
        },
    decreases commands.len(),
{
    if k < commands.len() - 1 {
        law_raster_sizes_the_canvas(layout, commands.drop_last(), k);
        lemma_layout_grows(layout.after(commands.drop_last()), seq![commands.last()]);
        assert(seq![commands.last()].drop_last() =~= Seq::<Command>::empty());
        assert(layout.after(commands.drop_last()).after(seq![commands.last()]) == layout.after(
            commands.drop_last(),
        ).after(Seq::<Command>::empty()).step(commands.last()));
    }
}

/// Two raster commands can be given in either order, giving one of them again
/// changes nothing, and none makes the declared size smaller.
pub proof fn law_raster_commands_commute(
    layout: Layout,
    first: Seq<char>,
    i: int,
    second: Seq<char>,
    j: int,
)
    ensures
        ({
            let a = raster_command(first, i).0;
            let b = raster_command(second, j).0;
            let both = layout.step(a).step(b);
            &&& both == layout.step(b).step(a)
            &&& both.step(a) == both
            &&& both.step(b) == both
            &&& layout.declared_width <= layout.step(a).declared_width
            &&& layout.declared_height <= layout.step(a).declared_height
        }),
{
}

/// Each data character of a stream makes at least one column.
proof fn lemma_counts_are_positive(chars: Seq<char>, i: int)
    requires
        0 <= i,
    ensures
        forall|k: int|
            0 <= k < commands_from(chars, i).len() ==> adds_columns(
                #[trigger] commands_from(chars, i)[k],
            ),
    decreases chars.len() - i,
{
    if i < chars.len() {
        lemma_command_end(chars, i);
        let (command, next) = command_at(chars, i);
        lemma_counts_are_positive(chars, next);
        assert forall|k: int| 0 <= k < commands_from(chars, i).len() implies adds_columns(
            #[trigger] commands_from(chars, i)[k],
        ) by {
            if k > 0 {
                assert(commands_from(chars, i)[k] == commands_from(chars, next)[k - 1]);
            }
        }
    }
}

/// The characters that a command takes up hold a data character just if the
/// command paints.
proof fn lemma_data_of_command(chars: Seq<char>, i: int)
    requires
        0 <= i < chars.len(),
    ensures
        (exists|k: int| i <= k < command_at(chars, i).1 && is_sixel(#[trigger] chars[k]))
            <==> command_at(chars, i).0 is Paint,
{
    lemma_command_end(chars, i);
    let (command, next) = command_at(chars, i);
    lemma_digits_end(chars, i + 1);
    let e1 = digits_end(chars, i + 1);
    if command is Paint {
        assert(is_sixel(chars[next - 1]));
    } else {
        if chars[i] == '#' {
            if separator_at(chars, e1) {
                lemma_digits_end(chars, e1 + 1);
                let e2 = digits_end(chars, e1 + 1);
                lemma_data_of_param(chars, e2);
                let e3 = param_end(chars, e2);
                lemma_data_of_param(chars, e3);
                lemma_data_of_param(chars, param_end(chars, e3));
            }
        } else if chars[i] == '"' {
            lemma_data_of_param(chars, e1);
            let e2 = param_end(chars, e1);
            lemma_data_of_param(chars, e2);
            lemma_data_of_param(chars, param_end(chars, e2));
        }
        assert(forall|k: int| i <= k < next ==> !is_sixel(#[trigger] chars[k]));
    }
}

/// A parameter takes up no data character.
proof fn lemma_data_of_param(chars: Seq<char>, i: int)
    requires
        0 <= i <= chars.len(),
    ensures
        i <= param_end(chars, i) <= chars.len(),
        forall|k: int| i <= k < param_end(chars, i) ==> !is_sixel(#[trigger] chars[k]),
{
    lemma_param_end(chars, i);
    if separator_at(chars, i) {
        lemma_digits_end(chars, i + 1);
    }
}

/// The rest of a stream holds a data character just if one of its commands
/// paints.
proof fn lemma_data_of_commands(chars: Seq<char>, i: int)
    requires
        0 <= i,
    ensures
        (exists|k: int| i <= k < chars.len() && is_sixel(#[trigger] chars[k])) <==> (exists|k: int|
            0 <= k < commands_from(chars, i).len() && #[trigger] commands_from(
                chars,
                i,
            )[k] is Paint),
    decreases chars.len() - i,
{
    if i < chars.len() {
        lemma_command_end(chars, i);
        let (command, next) = command_at(chars, i);
        let all = commands_from(chars, i);
        let rest = commands_from(chars, next);
        lemma_data_of_command(chars, i);
        lemma_data_of_commands(chars, next);
        assert(all[0] == command);
        if exists|k: int| i <= k < chars.len() && is_sixel(#[trigger] chars[k]) {
            let k = choose|k: int| i <= k < chars.len() && is_sixel(#[trigger] chars[k]);
            if k < next {
                assert(all[0] is Paint);
            } else {
                let m = choose|m: int| 0 <= m < rest.len() && #[trigger] rest[m] is Paint;
                assert(all[m + 1] is Paint);
            }
        }
        if exists|m: int| 0 <= m < all.len() && #[trigger] all[m] is Paint {
            let m = choose|m: int| 0 <= m < all.len() && #[trigger] all[m] is Paint;
            if m > 0 {
                assert(rest[m - 1] is Paint);
            }
        }
    }
}

/// A stream has a command that paints just if it has a data character. With one
/// it describes an image; without one it does so only if its raster attributes
/// declare a width and a height.
pub proof fn law_when_there_is_an_image(chars: Seq<char>)
    ensures
        (exists|k: int| 0 <= k < chars.len() && is_sixel(#[trigger] chars[k])) <==> (exists|k: int|
            0 <= k < commands(chars).len() && #[trigger] commands(chars)[k] is Paint),
        (exists|k: int| 0 <= k < chars.len() && is_sixel(#[trigger] chars[k]))
            ==> !layout_of(chars).is_empty(),
        (exists|k: int| 0 <= k < commands(chars).len() && #[trigger] commands(chars)[k] is Paint)
            ==> !layout_of(chars).is_empty(),
        (forall|k: int|
            0 <= k < commands(chars).len() ==> !(#[trigger] commands(chars)[k] is Paint)) ==> (
        layout_of(chars).is_empty() <==> layout_of(chars).declared_width == 0 || layout_of(
            chars,
        ).declared_height == 0),
{
    lemma_counts_are_positive(chars, 0);
    lemma_data_of_commands(chars, 0);
    if exists|k: int| 0 <= k < commands(chars).len() && #[trigger] commands(chars)[k] is Paint {
        let k = choose|k: int|
            0 <= k < commands(chars).len() && #[trigger] commands(chars)[k] is Paint;
        assert(adds_columns(commands(chars)[k]));
        lemma_paint_takes_up_room(Layout::initial(), commands(chars), k);
    } else {
        lemma_no_paint_no_room(Layout::initial(), commands(chars));
    }
}

/// A painted column leaves a picture with a width and a height.
proof fn lemma_paint_takes_up_room(layout: Layout, commands: Seq<Command>, k: int)
    requires
        0 <= k < commands.len(),
        commands[k] matches Command::Paint { bits, count } && count > 0,
    ensures
        layout.after(commands).reached_width > 0,
        layout.after(commands).reached_height > 0,
    decreases commands.len(),
{
    if k < commands.len() - 1 {
        lemma_paint_takes_up_room(layout, commands.drop_last(), k);
    }
}

/// Without a painted column a picture reaches no further than before.
proof fn lemma_no_paint_no_room(layout: Layout, commands: Seq<Command>)
    requires
        forall|k: int| 0 <= k < commands.len() ==> !(#[trigger] commands[k] is Paint),
    ensures
        layout.after(commands).reached_width == layout.reached_width,
        layout.after(commands).reached_height == layout.reached_height,
    decreases commands.len(),
{
    if commands.len() > 0 {
        assert(!(commands[commands.len() - 1] is Paint));
        assert forall|k: int| 0 <= k < commands.drop_last().len() implies !(
        #[trigger] commands.drop_last()[k] is Paint) by {
            assert(!(commands[k] is Paint));
        }
        lemma_no_paint_no_room(layout, commands.drop_last());
    }
}

/// Painting `m` columns and then `n` more of the same leaves what painting all
/// of them at once leaves.
pub proof fn law_columns_add_up(
    canvas: Canvas,
    layout: Layout,
    bits: u8,
    m: nat,
    n: nat,
    color: RGB8,
)
    ensures
        layout.advance(bits, m).advance(bits, n) == layout.advance(bits, m + n),
        painted(
            painted(canvas, layout, bits, m, color),
            layout.advance(bits, m),
            bits,
            n,
            color,
        ) == painted(canvas, layout, bits, m + n, color),
{
    assert(layout.advance(bits, m).advance(bits, n).columns =~= layout.advance(
        bits,
        m + n,
    ).columns);
    assert(painted(
        painted(canvas, layout, bits, m, color),
        layout.advance(bits, m),
        bits,
        n,
        color,
    ) =~= painted(canvas, layout, bits, m + n, color));
}

/// Painting `n` columns at once paints what `n` single columns do.
proof fn lemma_columns_at_once(picture: Picture, bits: u8, n: usize, hls: Hls)
    requires
        n >= 1,
    ensures
        picture.after(Seq::new(n as nat, |i: int| Command::Paint { bits, count: 1 }), hls)
            == picture.step(Command::Paint { bits, count: n }, hls),
    decreases n,
{
    let single = Command::Paint { bits, count: 1 };
    let columns = Seq::new(n as nat, |i: int| single);
    let fewer = Seq::new((n - 1) as nat, |i: int| single);
    assert(columns.drop_last() =~= fewer);
    if n == 1 {
        assert(picture.after(fewer, hls) == picture);
    } else {
        let m = (n - 1) as usize;
        lemma_columns_at_once(picture, bits, m, hls);
        assert(fewer =~= Seq::new(m as nat, |i: int| single));
        law_columns_add_up(picture.canvas, picture.layout, bits, m as nat, 1, picture.ink.color);
    }
}

/// The commands of a stream that is one data character over and over.
proof fn lemma_commands_of_run(c: char, n: nat, i: int)
    requires
        is_sixel(c),
        0 <= i <= n,
    ensures
        commands_from(Seq::new(n, |k: int| c), i) == Seq::new(
            (n - i) as nat,
            |k: int| Command::Paint { bits: sixel_bits(c), count: 1 },
        ),
    decreases n - i,
{
    if i < n {
        lemma_commands_of_run(c, n, i + 1);
        assert(commands_from(Seq::new(n, |k: int| c), i) =~= Seq::new(
            (n - i) as nat,
            |k: int| Command::Paint { bits: sixel_bits(c), count: 1 },
        ));
    } else {
        assert(commands_from(Seq::new(n, |k: int| c), i) =~= Seq::new(
            0,
            |k: int| Command::Paint { bits: sixel_bits(c), count: 1 },
        ));
    }
}

/// A count and the data character `c` behind it do to a picture what `c`,
/// written that many times, does; a count of zero, or none, stands for one. The
/// command ends behind the data character.
pub proof fn law_repeat_paints_its_columns(picture: Picture, chars: Seq<char>, i: int, hls: Hls)
    requires
        ({
            let end = digits_end(chars, i);
            0 <= end < chars.len() && is_sixel(chars[end])
        }),
    ensures
        ({
            let c = chars[digits_end(chars, i)];
            let count = number_at(chars, i);
            let times = if count == 0 {
                1
            } else {
                count as nat
            };
            &&& picture.step(repeat_command(chars, i).0, hls) == picture.after(
                commands(Seq::new(times, |k: int| c)),
                hls,
            )
            &&& repeat_command(chars, i).1 == digits_end(chars, i) + 1
        }),
{
    if let Command::Paint { bits, count } = repeat_command(chars, i).0 {
        let c = chars[digits_end(chars, i)];
        lemma_commands_of_run(c, count as nat, 0);
        lemma_columns_at_once(picture, bits, count, hls);
    }
}

/// `!Pn<c>` paints what the data character `c`, written `Pn` times, paints, and
/// takes up the whole of its characters.
pub proof fn law_run_length(picture: Picture, digits: Seq<char>, c: char, hls: Hls)
    requires
        forall|k: int| 0 <= k < digits.len() ==> is_digit(#[trigger] digits[k]),
        is_sixel(c),
        1 <= decimal(digits) <= usize::MAX,
    ensures
        picture.after(commands(seq!['!'] + digits + seq![c]), hls) == picture.after(
            commands(Seq::new(decimal(digits), |k: int| c)),
            hls,
        ),
        command_at(seq!['!'] + digits + seq![c], 0).1 == digits.len() + 2,
{
    let run = seq!['!'] + digits + seq![c];
    let end = digits.len() as int + 1;
    lemma_digits_end(run, 1);
    let found = digits_end(run, 1);
    assert(found == end) by {
        if found < end {
            assert(run[found] == digits[found - 1]);
        } else if found > end {
            assert(is_digit(run[end]));
        }
    }
    assert(run.subrange(1, end) =~= digits);
    let repeated = repeat_command(run, 1).0;
    assert(command_at(run, 0) == (repeated, end + 1));
    assert(commands_from(run, end + 1) =~= Seq::<Command>::empty());
    assert(commands(run) =~= seq![repeated]);
    assert(seq![repeated].drop_last() =~= Seq::<Command>::empty());
    assert(picture.after(seq![repeated], hls) == picture.after(Seq::<Command>::empty(), hls).step(
        repeated,
        hls,
    ));
    law_repeat_paints_its_columns(picture, run, 1, hls);
}

/// Whether `c` stands for nothing wherever a command may begin or end: it
/// neither begins a command nor carries one on.
pub open spec fn is_padding(c: char) -> bool {
    &&& !is_sixel(c)
    &&& !is_digit(c)
    &&& c != ';' && c != '#' && c != '"' && c != '!' && c != '$' && c != '-'
}

/// Whether a command ends at index `to`, reading commands from index `from`.
pub open spec fn command_ends_at(chars: Seq<char>, from: int, to: int) -> bool
    decreases chars.len() - from,
{
    if 0 <= from < to <= chars.len() {
        proof {
            lemma_command_end(chars, from);
        }
        command_ends_at(chars, command_at(chars, from).1, to)
    } else {
        from == to
    }
}

/// The stream with `c` put in at index `i`.
pub open spec fn with_inserted(chars: Seq<char>, i: int, c: char) -> Seq<char> {
    chars.take(i) + seq![c] + chars.skip(i)
}

/// Whether two streams agree in their first `i` characters, and `other` ends
/// there or goes on with padding.
spec fn agree_up_to(chars: Seq<char>, other: Seq<char>, i: int) -> bool {
    &&& 0 <= i <= chars.len()
    &&& i <= other.len()
    &&& forall|k: int| 0 <= k < i ==> chars[k] == #[trigger] other[k]
    &&& i < other.len() ==> is_padding(other[i])
}

/// Digits that end at or before `i` read the same in both streams.
proof fn lemma_same_digits(chars: Seq<char>, other: Seq<char>, i: int, k: int)
    requires
        agree_up_to(chars, other, i),
        0 <= k <= i,
        digits_end(chars, k) <= i,
    ensures
        digits_end(other, k) == digits_end(chars, k),
        number_at(other, k) == number_at(chars, k),
    decreases i - k,
{
    lemma_digits_end(chars, k);
    if k < i {
        assert(other[k] == chars[k]);
        if is_digit(chars[k]) {
            lemma_same_digits(chars, other, i, k + 1);
        }
    }
    let end = digits_end(chars, k);
    assert(other.subrange(k, end) =~= chars.subrange(k, end));
}

/// A parameter that ends at or before `i` reads the same in both streams.
proof fn lemma_same_param(chars: Seq<char>, other: Seq<char>, i: int, k: int)
    requires
        agree_up_to(chars, other, i),
        0 <= k <= i,
        param_end(chars, k) <= i,
    ensures
        param_end(other, k) == param_end(chars, k),
        param_at(other, k) == param_at(chars, k),
{
    if k < i {
        assert(other[k] == chars[k]);
    }
    if separator_at(chars, k) {
        lemma_digits_end(chars, k + 1);
        lemma_same_digits(chars, other, i, k + 1);
    }
}

/// A command that ends at or before `i` reads the same in both streams.
proof fn lemma_same_command(chars: Seq<char>, other: Seq<char>, i: int, k: int)
    requires
        agree_up_to(chars, other, i),
        0 <= k < i,
        command_at(chars, k).1 <= i,
    ensures
        command_at(other, k) == command_at(chars, k),
{
    assert(other[k] == chars[k]);
    let e1 = digits_end(chars, k + 1);
    lemma_digits_end(chars, k + 1);
    if chars[k] == '#' {
        if separator_at(chars, e1) {
            lemma_digits_end(chars, e1 + 1);
            let e2 = digits_end(chars, e1 + 1);
            lemma_param_end(chars, e2);
            let e3 = param_end(chars, e2);
            lemma_param_end(chars, e3);
            let e4 = param_end(chars, e3);
            lemma_param_end(chars, e4);
            lemma_same_digits(chars, other, i, k + 1);
            lemma_same_digits(chars, other, i, e1 + 1);
            lemma_same_param(chars, other, i, e2);
            lemma_same_param(chars, other, i, e3);
            lemma_same_param(chars, other, i, e4);
            assert(other[e1] == chars[e1]);
        } else {
            lemma_same_digits(chars, other, i, k + 1);
            assert(e1 < i ==> other[e1] == chars[e1]);
        }
    } else if chars[k] == '"' {
        lemma_param_end(chars, e1);
        let e2 = param_end(chars, e1);
        lemma_param_end(chars, e2);
        let e3 = param_end(chars, e2);
        lemma_param_end(chars, e3);
        lemma_same_digits(chars, other, i, k + 1);
        lemma_same_param(chars, other, i, e1);
        lemma_same_param(chars, other, i, e2);
        lemma_same_param(chars, other, i, e3);
    } else if chars[k] == '!' {
        lemma_same_digits(chars, other, i, k + 1);
        assert(e1 < i ==> other[e1] == chars[e1]);
    }
}

/// Digits read the same behind anything that is put before them.
proof fn lemma_shifted_digits(front: Seq<char>, chars: Seq<char>, k: int)
    requires
        0 <= k,
    ensures
        digits_end(front + chars, front.len() + k) == front.len() + digits_end(chars, k),
        number_at(front + chars, front.len() + k) == number_at(chars, k),
    decreases chars.len() - k,
{
    let all = front + chars;
    if k < chars.len() {
        assert(all[front.len() + k] == chars[k]);
        if is_digit(chars[k]) {
            lemma_shifted_digits(front, chars, k + 1);
        }
    }
    lemma_digits_end(chars, k);
    let end = digits_end(chars, k);
    if k < end {
        assert(all.subrange(front.len() + k, front.len() + end) =~= chars.subrange(k, end));
    }
}

/// A parameter reads the same behind anything that is put before it.
proof fn lemma_shifted_param(front: Seq<char>, chars: Seq<char>, k: int)
    requires
        0 <= k,
    ensures
        separator_at(front + chars, front.len() + k) == separator_at(chars, k),
        param_end(front + chars, front.len() + k) == front.len() + param_end(chars, k),
        param_at(front + chars, front.len() + k) == param_at(chars, k),
{
    if k < chars.len() {
        assert((front + chars)[front.len() + k] == chars[k]);
    }
    lemma_shifted_digits(front, chars, k + 1);
}

/// A command reads the same behind anything that is put before it.
proof fn lemma_shifted_command(front: Seq<char>, chars: Seq<char>, k: int)
    requires
        0 <= k < chars.len(),
    ensures
        command_at(front + chars, front.len() + k) == (
            command_at(chars, k).0,
            front.len() + command_at(chars, k).1,
        ),
{
    let all = front + chars;
    assert(all[front.len() + k] == chars[k]);
    let e1 = digits_end(chars, k + 1);
    lemma_digits_end(chars, k + 1);
    lemma_shifted_digits(front, chars, k + 1);
    lemma_shifted_param(front, chars, e1);
    if chars[k] == '#' {
        if separator_at(chars, e1) {
            let e2 = digits_end(chars, e1 + 1);
            lemma_digits_end(chars, e1 + 1);
            lemma_param_end(chars, e2);
            let e3 = param_end(chars, e2);
            lemma_param_end(chars, e3);
            let e4 = param_end(chars, e3);
            lemma_shifted_digits(front, chars, e1 + 1);
            lemma_shifted_param(front, chars, e2);
            lemma_shifted_param(front, chars, e3);
            lemma_shifted_param(front, chars, e4);
        }
    } else if chars[k] == '"' {
        lemma_param_end(chars, e1);
        let e2 = param_end(chars, e1);
        lemma_param_end(chars, e2);
        let e3 = param_end(chars, e2);
        lemma_shifted_param(front, chars, e2);
        lemma_shifted_param(front, chars, e3);
    } else if chars[k] == '!' {
        if e1 < chars.len() {
            assert(all[front.len() + e1] == chars[e1]);
        }
    }
}

/// Commands read the same behind anything that is put before them.
proof fn lemma_shifted_commands(front: Seq<char>, chars: Seq<char>, k: int)
    requires
        0 <= k,
    ensures
        commands_from(front + chars, front.len() + k) == commands_from(chars, k),
    decreases chars.len() - k,
{
    if k < chars.len() {
        lemma_command_end(chars, k);
        lemma_shifted_command(front, chars, k);
        lemma_shifted_commands(front, chars, command_at(chars, k).1);
    }
}

/// Padding put in where a command ends adds one command that does nothing.
proof fn lemma_inserted_commands(chars: Seq<char>, from: int, i: int, c: char) -> (first: Seq<
    Command,
>)
    requires
        0 <= from <= i <= chars.len(),
        is_padding(c),
        command_ends_at(chars, from, i),
    ensures
        commands_from(chars, from) == first + commands_from(chars, i),
        commands_from(with_inserted(chars, i, c), from) == first + (seq![Command::Skip]
            + commands_from(chars, i)),
    decreases i - from,
{
    let padded = with_inserted(chars, i, c);
    if from < i {
        lemma_command_end(chars, from);
        let (command, next) = command_at(chars, from);
        assert(next <= i) by {
            if next > i {
                assert(!command_ends_at(chars, next, i));
            }
        }
        lemma_same_command(chars, padded, i, from);
        let later = lemma_inserted_commands(chars, next, i, c);
        let first = seq![command] + later;
        assert(commands_from(chars, from) =~= first + commands_from(chars, i));
        assert(commands_from(padded, from) =~= first + (seq![Command::Skip] + commands_from(
            chars,
            i,
        )));
        first
    } else {
        let first = Seq::<Command>::empty();
        let front = chars.take(i) + seq![c];
        assert(padded[i] == c);
        assert(command_at(padded, i) == (Command::Skip, i + 1));
        lemma_shifted_commands(front, chars.skip(i), 0);
        lemma_shifted_commands(chars.take(i), chars.skip(i), 0);
        assert(chars.take(i) + chars.skip(i) =~= chars);
        assert(front + chars.skip(i) =~= padded);
        assert(commands_from(chars, from) =~= first + commands_from(chars, i));
        assert(commands_from(padded, from) =~= first + (seq![Command::Skip] + commands_from(
            chars,
            i,
        )));
        first
    }
}

/// Whitespace, or any other character that means nothing, changes nothing about
/// a picture where it is put between two commands.
pub proof fn law_padding_is_ignored(
    picture: Picture,
    chars: Seq<char>,
    i: int,
    c: char,
    hls: Hls,
)
    requires
        0 <= i <= chars.len(),
        command_ends_at(chars, 0, i),
        is_padding(c),
    ensures
        picture.after(commands(with_inserted(chars, i, c)), hls) == picture.after(
            commands(chars),
            hls,
        ),
{
    let first = lemma_inserted_commands(chars, 0, i, c);
    let rest = commands_from(chars, i);
    let skip = seq![Command::Skip];
    law_commands_compose(picture, first, rest, hls);
    law_commands_compose(picture, first, skip + rest, hls);
    law_commands_compose(picture.after(first, hls), skip, rest, hls);
    let p = picture.after(first, hls);
    assert(skip.drop_last() =~= Seq::<Command>::empty());
    assert(p.after(skip, hls) == p.after(Seq::<Command>::empty(), hls).step(Command::Skip, hls));
    assert(p.step(Command::Skip, hls) =~= p);
}

/// The commands of two pieces, the first of which ends where a command of the
/// whole does, are those of the whole.
proof fn lemma_commands_in_pieces(first: Seq<char>, second: Seq<char>, from: int)
    requires
        0 <= from <= first.len(),
        command_ends_at(first + second, from, first.len() as int),
    ensures
        commands_from(first + second, from) == commands_from(first, from) + commands(second),
    decreases first.len() - from,
{
    let all = first + second;
    if from < first.len() {
        lemma_command_end(all, from);
        let (command, next) = command_at(all, from);
        assert(next <= first.len()) by {
            if next > first.len() {
                assert(!command_ends_at(all, next, first.len() as int));
            }
        }
        lemma_same_command(all, first, first.len() as int, from);
        lemma_commands_in_pieces(first, second, next);
        assert(commands_from(all, from) =~= commands_from(first, from) + commands(second));
    } else {
        lemma_shifted_commands(first, second, 0);
        assert(commands_from(all, from) =~= commands_from(first, from) + commands(second));
    }
}

/// A stream that is cut between two commands and run in two pieces leaves what
/// the whole stream leaves.
pub proof fn law_stream_in_two_pieces(
    picture: Picture,
    first: Seq<char>,
    second: Seq<char>,
    hls: Hls,
)
    requires
        command_ends_at(first + second, 0, first.len() as int),
    ensures
        commands(first + second) == commands(first) + commands(second),
        picture.layout.after(commands(first + second)) == picture.layout.after(
            commands(first),
        ).after(commands(second)),
        picture.after(commands(first + second), hls) == picture.after(commands(first), hls).after(
            commands(second),
            hls,
        ),
{
    lemma_commands_in_pieces(first, second, 0);
    lemma_layout_after_concat(picture.layout, commands(first), commands(second));
    law_commands_compose(picture, commands(first), commands(second), hls);
}

/// Whether a stream ends in a `!` with nothing but digits behind it.
pub open spec fn ends_in_repeat(chars: Seq<char>) -> bool {
    exists|k: int|
        0 <= k < chars.len() && #[trigger] chars[k] == '!' && (forall|j: int|
            k < j < chars.len() ==> is_digit(#[trigger] chars[j]))
}

/// A stream is cut between two commands wherever what comes next is no digit and
/// no separator, and what came before is no count that waits for its character.
pub proof fn law_where_a_stream_may_be_cut(first: Seq<char>, second: Seq<char>)
    requires
        !ends_in_repeat(first),
        second.len() > 0 ==> !is_digit(second[0]) && second[0] != ';',
    ensures
        command_ends_at(first + second, 0, first.len() as int),
{
    lemma_cut_between_commands(first, second, 0);
}

/// Digits that begin in the first piece, or right behind it, end there.
proof fn lemma_digits_before_cut(first: Seq<char>, second: Seq<char>, k: int)
    requires
        0 <= k <= first.len(),
        second.len() > 0 ==> !is_digit(second[0]) && second[0] != ';',
    ensures
        k <= digits_end(first + second, k) <= first.len(),
{
    let all = first + second;
    lemma_digits_end(all, k);
    if digits_end(all, k) > first.len() {
        assert(is_digit(all[first.len() as int]));
        assert(all[first.len() as int] == second[0]);
    }
}

/// A parameter that begins in the first piece, or right behind it, ends there.
proof fn lemma_param_before_cut(first: Seq<char>, second: Seq<char>, k: int)
    requires
        0 <= k <= first.len(),
        second.len() > 0 ==> !is_digit(second[0]) && second[0] != ';',
    ensures
        k <= param_end(first + second, k) <= first.len(),
{
    let all = first + second;
    if separator_at(all, k) {
        assert(k < first.len()) by {
            if k == first.len() {
                assert(all[k] == second[0]);
            }
        }
        lemma_digits_before_cut(first, second, k + 1);
    }
}

/// A command that begins in the first piece ends there.
proof fn lemma_cut_between_commands(first: Seq<char>, second: Seq<char>, from: int)
    requires
        0 <= from <= first.len(),
        !ends_in_repeat(first),
        second.len() > 0 ==> !is_digit(second[0]) && second[0] != ';',
    ensures
        command_ends_at(first + second, from, first.len() as int),
    decreases first.len() - from,
{
    let all = first + second;
    if from < first.len() {
        lemma_command_end(all, from);
        let e1 = digits_end(all, from + 1);
        lemma_digits_before_cut(first, second, from + 1);
        lemma_param_before_cut(first, second, e1);
        let f2 = param_end(all, e1);
        lemma_param_before_cut(first, second, f2);
        lemma_param_before_cut(first, second, param_end(all, f2));
        if separator_at(all, e1) {
            assert(e1 < first.len()) by {
                if e1 == first.len() {
                    assert(all[e1] == second[0]);
                }
            }
            lemma_digits_before_cut(first, second, e1 + 1);
            let e2 = digits_end(all, e1 + 1);
            lemma_param_before_cut(first, second, e2);
            let e3 = param_end(all, e2);
            lemma_param_before_cut(first, second, e3);
            lemma_param_before_cut(first, second, param_end(all, e3));
        }
        assert(all[from] == first[from]);
        if first[from] == '!' {
            assert(e1 < first.len()) by {
                if e1 == first.len() {
                    lemma_digits_end(all, from + 1);
                    assert forall|j: int| from < j < first.len() implies is_digit(
                        #[trigger] first[j],
                    ) by {
                        assert(all[j] == first[j]);
                    }
                    assert(ends_in_repeat(first));
                }
            }
        }
        lemma_cut_between_commands(first, second, command_at(all, from).1);
    }
}

/// A decoder that runs a stream in two pieces, cut between two commands, ends up
/// like one that runs it whole.
pub proof fn law_decoder_runs_in_two_pieces(
    start: Decoder,
    middle: Decoder,
    end: Decoder,
    whole: Decoder,
    first: Seq<char>,
    second: Seq<char>,
    hls: Hls,
)
    requires
        command_ends_at(first + second, 0, first.len() as int),
        middle.picture() == start.picture().after(commands(first), hls),
        end.picture() == middle.picture().after(commands(second), hls),
        whole.picture() == start.picture().after(commands(first + second), hls),
    ensures
        end.same(&whole),
{
    law_stream_in_two_pieces(start.picture(), first, second, hls);
    Decoder::law_picture_tells_all(end, whole);
}

/// A decoder whose next commands set a register, leave it alone, and select it,
/// ends up with the color that was set.
pub proof fn law_decoder_selects_last_definition<F: Fn(usize, usize, usize) -> RGB8>(
    states: Seq<Decoder>,
    commands: Seq<Command>,
    f: F,
    register: usize,
)
    requires
        may_lead(states.map_values(|state: Decoder| state.ink()), commands, f),
        states.first().wf(),
        register < REGISTERS,
        commands.len() > 1,
        defines(commands.first(), register),
        forall|k: int| 0 < k < commands.len() ==> !defines(#[trigger] commands[k], register),
        commands.last() == (Command::Select { register }),
    ensures
        commands.first() matches Command::Define { register: r, space, x, y, z } ==> may_yield(
            f,
            space,
            x,
            y,
            z,
            states.last().color,
        ),
{
    let inks = states.map_values(|state: Decoder| state.ink());
    let last = commands.len() - 1;
    lemma_register_stays(inks, commands, f, register, last);
    assert(may_become(inks[last], commands[last], f, inks[last + 1]));
}

/// Whether a decoder `from` that reads the raster command at `i` becomes `to`.
pub open spec fn takes_raster(from: Decoder, chars: Seq<char>, i: int, to: Decoder) -> bool {
    &&& to.layout() == from.layout().step(raster_command(chars, i).0)
    &&& to.ink() == from.ink()
    &&& to.rows == from.rows
}

/// Decoders that read two raster commands in either order end up alike, reading
/// one of them again changes nothing, and none makes the declared size smaller.
pub proof fn law_decoder_takes_raster_in_any_order(
    start: Decoder,
    a: Decoder,
    ab: Decoder,
    b: Decoder,
    ba: Decoder,
    again: Decoder,
    first: Seq<char>,
    i: int,
    second: Seq<char>,
    j: int,
)
    requires
        takes_raster(start, first, i, a),
        takes_raster(a, second, j, ab),
        takes_raster(start, second, j, b),
        takes_raster(b, first, i, ba),
        takes_raster(ab, first, i, again) || takes_raster(ab, second, j, again),
    ensures
        ab.same(&ba),
        again.same(&ab),
        start.declared_width <= a.declared_width <= ab.declared_width,
        start.declared_height <= a.declared_height <= ab.declared_height,
{
    law_raster_commands_commute(start.layout(), first, i, second, j);
    law_raster_commands_commute(a.layout(), second, j, second, j);
    Decoder::law_picture_tells_all(ab, ba);
    Decoder::law_picture_tells_all(again, ab);
}

/// A decoder that reads a count and a data character ends up like one that runs
/// the data character that many times.
pub proof fn law_decoder_repeats(
    start: Decoder,
    repeated: Decoder,
    ran: Decoder,
    chars: Seq<char>,
    i: int,
    hls: Hls,
)
    requires
        ({
            let end = digits_end(chars, i);
            0 <= end < chars.len() && is_sixel(chars[end])
        }),
        number_at(chars, i) > 0,
        repeated.picture() == start.picture().step(repeat_command(chars, i).0, hls),
        ran.picture() == start.picture().after(
            commands(Seq::new(number_at(chars, i) as nat, |k: int| chars[digits_end(chars, i)])),
            hls,
        ),
    ensures
        repeated.same(&ran),
{
    law_repeat_paints_its_columns(start.picture(), chars, i, hls);
    let c = chars[digits_end(chars, i)];
    assert(Seq::new(number_at(chars, i) as nat, |k: int| c) =~= Seq::new(
        number_at(chars, i) as nat,
        |k: int| chars[digits_end(chars, i)],
    ));
    Decoder::law_picture_tells_all(repeated, ran);
}

/// A decoder that paints `m` columns and then `n` more of the same ends up like
/// one that paints all of them at once.
pub proof fn law_decoder_adds_columns(
    start: Decoder,
    middle: Decoder,
    end: Decoder,
    whole: Decoder,
    value: u8,
    m: nat,
    n: nat,
)
    requires
        middle.layout() == start.layout().advance(value, m),
        middle.ink() == start.ink(),
        middle.canvas() == painted(start.canvas(), start.layout(), value, m, start.color),
        end.layout() == middle.layout().advance(value, n),
        end.ink() == middle.ink(),
        end.canvas() == painted(middle.canvas(), middle.layout(), value, n, middle.color),
        whole.layout() == start.layout().advance(value, m + n),
        whole.ink() == start.ink(),
        whole.canvas() == painted(start.canvas(), start.layout(), value, m + n, start.color),
    ensures
        end.same(&whole),
{
    law_columns_add_up(start.canvas(), start.layout(), value, m, n, start.color);
    assert(middle.color == middle.ink().color);
    Decoder::law_picture_tells_all(end, whole);
}

} // verus!
