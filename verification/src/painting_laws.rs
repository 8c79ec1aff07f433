//! What the commands of a sixel stream leave on a picture, told by which
//! commands there are and in which order.

use rgb::{Rgb, Rgba, RGB8};
use vstd::prelude::*;

use crate::picture::{
    accepts_hls, bit_set, computes, default_color, default_registers, depth, lemma_depth,
    lemma_layout_of_picture, may_become, may_lead, may_paint, painted_with, percent_color,
    percent_level, Canvas, Hls, Ink, Layout, Picture, REGISTERS,
};
use crate::stream::{commands, is_sixel, sixel_bits, Command};

verus! {

/// A pixel of a column is set just if the binary digit of its place is one: the
/// top pixel has the place of the ones, and each place is worth twice the one
/// above it.
pub proof fn law_pixels_are_binary_digits(bits: u8, n: int)
    requires
        0 <= n < 8,
    ensures
        bit_set(bits, n) <==> (bits as int / vstd::arithmetic::power2::pow2(n as nat) as int) % 2
            == 1,
{
    vstd::arithmetic::power2::lemma2_to64();
    assert(bits & (1u8 << 0usize) != 0 <==> (bits / 1u8) % 2 == 1) by (bit_vector);
    assert(bits & (1u8 << 1usize) != 0 <==> (bits / 2u8) % 2 == 1) by (bit_vector);
    assert(bits & (1u8 << 2usize) != 0 <==> (bits / 4u8) % 2 == 1) by (bit_vector);
    assert(bits & (1u8 << 3usize) != 0 <==> (bits / 8u8) % 2 == 1) by (bit_vector);
    assert(bits & (1u8 << 4usize) != 0 <==> (bits / 16u8) % 2 == 1) by (bit_vector);
    assert(bits & (1u8 << 5usize) != 0 <==> (bits / 32u8) % 2 == 1) by (bit_vector);
    assert(bits & (1u8 << 6usize) != 0 <==> (bits / 64u8) % 2 == 1) by (bit_vector);
    assert(bits & (1u8 << 7usize) != 0 <==> (bits / 128u8) % 2 == 1) by (bit_vector);
}

/// Whether command `k` sets the pixel at column `x` and row `y`: it paints, the
/// column is one of those it paints, and the row is one of the six from the top
/// of the band whose binary digit is one.
pub open spec fn sets_pixel(
    layout: Layout,
    commands: Seq<Command>,
    k: int,
    x: int,
    y: int,
) -> bool {
    let at = layout.after(commands.take(k));
    commands[k] matches Command::Paint { bits, count } && at.x <= x < at.x + count && 0 <= y
        - at.band < 6 && (bits as int / vstd::arithmetic::power2::pow2(
        (y - at.band) as nat,
    ) as int) % 2 == 1
}

/// A command covers the pixels that it sets.
proof fn lemma_sets_what_it_covers(layout: Layout, bits: u8, count: nat, x: int, y: int)
    ensures
        layout.covers(bits, count, x, y) <==> layout.x <= x < layout.x + count && 0 <= y
            - layout.band < 6 && (bits as int / vstd::arithmetic::power2::pow2(
            (y - layout.band) as nat,
        ) as int) % 2 == 1,
{
    if 0 <= y - layout.band < 6 {
        law_pixels_are_binary_digits(bits, y - layout.band);
    }
}

/// What stays of the setting of pixels without the last command.
proof fn lemma_sets_pixel_before(layout: Layout, commands: Seq<Command>, x: int, y: int)
    requires
        commands.len() > 0,
    ensures
        forall|j: int|
            0 <= j < commands.len() - 1 ==> #[trigger] sets_pixel(
                layout,
                commands.drop_last(),
                j,
                x,
                y,
            ) == sets_pixel(layout, commands, j, x, y),
        commands.take(commands.len() - 1) == commands.drop_last(),
{
    assert(commands.take(commands.len() - 1) =~= commands.drop_last());
    assert forall|j: int| 0 <= j < commands.len() - 1 implies #[trigger] sets_pixel(
        layout,
        commands.drop_last(),
        j,
        x,
        y,
    ) == sets_pixel(layout, commands, j, x, y) by {
        assert(commands.drop_last().take(j) =~= commands.take(j));
    }
}

/// A pixel that command `k` is the last to set is fully opaque and has the color
/// that was current then, channel by channel.
pub proof fn law_last_setting_decides(
    canvas: Canvas,
    layout: Layout,
    commands: Seq<Command>,
    inks: Seq<Ink>,
    k: int,
    x: int,
    y: int,
)
    requires
        inks.len() == commands.len() + 1,
        0 <= k < commands.len(),
        sets_pixel(layout, commands, k, x, y),
        forall|j: int| k < j < commands.len() ==> !sets_pixel(layout, commands, j, x, y),
    ensures
        painted_with(canvas, layout, commands, inks)(x, y) == (Rgba {
            r: inks[k].color.r,
            g: inks[k].color.g,
            b: inks[k].color.b,
            a: 255u8,
        }),
    decreases commands.len(),
{
    let init = commands.drop_last();
    let last = commands.len() - 1;
    lemma_sets_pixel_before(layout, commands, x, y);
    if let Command::Paint { bits, count } = commands[last] {
        lemma_sets_what_it_covers(layout.after(init), bits, count as nat, x, y);
    }
    if k < last {
        assert(!sets_pixel(layout, commands, last, x, y));
        assert forall|j: int| k < j < init.len() implies !sets_pixel(layout, init, j, x, y) by {
            assert(!sets_pixel(layout, commands, j, x, y));
        }
        assert(sets_pixel(layout, init, k, x, y));
        law_last_setting_decides(canvas, layout, init, inks.drop_last(), k, x, y);
    }
}

/// A pixel that no command sets stays as it was.
pub proof fn law_pixels_not_set_stay(
    canvas: Canvas,
    layout: Layout,
    commands: Seq<Command>,
    inks: Seq<Ink>,
    x: int,
    y: int,
)
    requires
        inks.len() == commands.len() + 1,
        forall|j: int| 0 <= j < commands.len() ==> !sets_pixel(layout, commands, j, x, y),
    ensures
        painted_with(canvas, layout, commands, inks)(x, y) == canvas(x, y),
    decreases commands.len(),
{
    if commands.len() > 0 {
        let init = commands.drop_last();
        let last = commands.len() - 1;
        lemma_sets_pixel_before(layout, commands, x, y);
        if let Command::Paint { bits, count } = commands[last] {
            lemma_sets_what_it_covers(layout.after(init), bits, count as nat, x, y);
        }
        assert(!sets_pixel(layout, commands, last, x, y));
        assert forall|j: int| 0 <= j < init.len() implies !sets_pixel(layout, init, j, x, y) by {
            assert(!sets_pixel(layout, commands, j, x, y));
        }
        law_pixels_not_set_stay(canvas, layout, init, inks.drop_last(), x, y);
    }
}

/// The inks of a picture, one before each command and one behind the last.
pub open spec fn inks_of(picture: Picture, commands: Seq<Command>, hls: Hls) -> Seq<Ink> {
    Seq::new(commands.len() + 1, |k: int| picture.after(commands.take(k), hls).ink)
}

/// A picture is painted with its own inks, and reaches as far as its layout.
pub proof fn law_picture_is_painted_with_its_inks(
    picture: Picture,
    commands: Seq<Command>,
    hls: Hls,
)
    ensures
        picture.after(commands, hls).canvas == painted_with(
            picture.canvas,
            picture.layout,
            commands,
            inks_of(picture, commands, hls),
        ),
        picture.after(commands, hls).layout == picture.layout.after(commands),
        picture.after(commands, hls).ink == inks_of(picture, commands, hls).last(),
    decreases commands.len(),
{
    lemma_layout_of_picture(picture, commands, hls);
    assert(commands.take(commands.len() as int) =~= commands);
    if commands.len() > 0 {
        let init = commands.drop_last();
        let last = commands.len() - 1;
        law_picture_is_painted_with_its_inks(picture, init, hls);
        assert(commands.take(last) =~= init);
        assert forall|k: int| 0 <= k < commands.len() implies inks_of(
            picture,
            commands,
            hls,
        ).drop_last()[k] == inks_of(picture, init, hls)[k] by {
            assert(commands.take(k) =~= init.take(k));
        }
        assert(inks_of(picture, commands, hls).drop_last() =~= inks_of(picture, init, hls));
    }
}

/// A stream begins at the top left of a clear canvas, of no size, with the
/// colors that all registers have from the start and that of register zero.
pub proof fn law_new_picture_is_clear(x: int, y: int)
    ensures
        (Picture::initial().canvas)(x, y) == (Rgba { r: 0u8, g: 0u8, b: 0u8, a: 0u8 }),
        Picture::initial().layout == Layout::initial(),
        Picture::initial().ink == Ink::initial(),
        Layout::initial().x == 0,
        Layout::initial().band == 0,
        Layout::initial().reached_width == 0,
        Layout::initial().reached_height == 0,
        Layout::initial().declared_width == 0,
        Layout::initial().declared_height == 0,
        Layout::initial().rows == 0,
        (Layout::initial().columns)(y) == 0,
        Ink::initial().registers == default_registers(),
        Ink::initial().color == default_registers()[0],
{
}

/// Each graphics newline moves the top of the band down by six rows, and nothing
/// else moves it.
pub proof fn law_bands_are_six_rows_apart(layout: Layout, commands: Seq<Command>)
    ensures
        layout.after(commands).band == layout.band + 6 * commands.filter(
            |command: Command| command is NewLine,
        ).len(),
    decreases commands.len(),
{
    reveal(Seq::filter);
    if commands.len() > 0 {
        law_bands_are_six_rows_apart(layout, commands.drop_last());
    }
}

/// The columns that some commands paint, one beside the other.
pub open spec fn columns_painted(commands: Seq<Command>) -> nat
    decreases commands.len(),
{
    if commands.len() == 0 {
        0
    } else {
        let others = columns_painted(commands.drop_first());
        match commands.first() {
            Command::Paint { bits, count } => count as nat + others,
            _ => others,
        }
    }
}

/// Whether a command goes back to the first column.
pub open spec fn goes_back(command: Command) -> bool {
    command is Return || command is NewLine
}

/// Painted columns stand side by side from where the painting began, which is
/// the first column behind a `$` or a `-`.
pub proof fn law_columns_stand_side_by_side(
    layout: Layout,
    before: Seq<Command>,
    back: Command,
    commands: Seq<Command>,
)
    requires
        goes_back(back),
        forall|k: int| 0 <= k < commands.len() ==> !goes_back(#[trigger] commands[k]),
    ensures
        layout.after(commands).x == layout.x + columns_painted(commands),
        layout.after(before.push(back) + commands).x == columns_painted(commands),
    decreases commands.len(),
{
    if commands.len() == 0 {
        assert(before.push(back) + commands =~= before.push(back));
        assert(before.push(back).drop_last() =~= before);
    } else {
        let init = commands.drop_last();
        assert forall|k: int| 0 <= k < init.len() implies !goes_back(#[trigger] init[k]) by {
            assert(!goes_back(commands[k]));
        }
        assert(!goes_back(commands[commands.len() - 1]));
        law_columns_stand_side_by_side(layout, before, back, init);
        lemma_columns_painted_last(commands);
        assert((before.push(back) + commands).drop_last() =~= before.push(back) + init);
        assert((before.push(back) + commands).last() == commands.last());
    }
}

/// The columns of the last command add to those of the others.
proof fn lemma_columns_painted_last(commands: Seq<Command>)
    requires
        commands.len() > 0,
    ensures
        columns_painted(commands) == columns_painted(commands.drop_last()) + columns_painted(
            seq![commands.last()],
        ),
        columns_painted(seq![commands.last()]) == match commands.last() {
            Command::Paint { bits, count } => count as nat,
            _ => 0,
        },
    decreases commands.len(),
{
    let single = seq![commands.last()];
    assert(single.drop_first() =~= Seq::<Command>::empty());
    assert(columns_painted(single.drop_first()) == 0);
    if commands.len() == 1 {
        assert(commands =~= single);
        assert(commands.drop_last() =~= Seq::<Command>::empty());
    } else {
        lemma_columns_painted_last(commands.drop_first());
        assert(commands.drop_first().drop_last() =~= commands.drop_last().drop_first());
        assert(commands.drop_last().first() == commands.first());
    }
}

/// The reached width is the farthest that the columns of any moment came.
pub proof fn law_reached_width_is_the_farthest(layout: Layout, commands: Seq<Command>)
    requires
        layout.x <= layout.reached_width,
    ensures
        layout.reached_width <= layout.after(commands).reached_width,
        forall|m: int|
            0 <= m <= commands.len() ==> (#[trigger] layout.after(commands.take(m))).x
                <= layout.after(commands).reached_width,
        layout.after(commands).reached_width == layout.reached_width || (exists|m: int|
            0 <= m <= commands.len() && (#[trigger] layout.after(commands.take(m))).x
                == layout.after(commands).reached_width),
    decreases commands.len(),
{
    assert(commands.take(commands.len() as int) =~= commands);
    if commands.len() > 0 {
        let init = commands.drop_last();
        law_reached_width_is_the_farthest(layout, init);
        assert(forall|m: int| 0 <= m <= init.len() ==> init.take(m) =~= commands.take(m));
        assert forall|m: int| 0 <= m <= commands.len() implies (#[trigger] layout.after(
            commands.take(m),
        )).x <= layout.after(commands).reached_width by {
            if m < commands.len() {
                assert(init.take(m) =~= commands.take(m));
                assert(layout.after(init.take(m)).x <= layout.after(init).reached_width);
            } else {
                assert(init.take(init.len() as int) =~= init);
                assert(layout.after(init.take(init.len() as int)).x <= layout.after(
                    init,
                ).reached_width);
            }
        }
        if layout.after(commands).reached_width == layout.after(init).reached_width {
            if layout.after(init).reached_width != layout.reached_width {
                let m = choose|m: int|
                    0 <= m <= init.len() && (#[trigger] layout.after(init.take(m))).x
                        == layout.after(init).reached_width;
                assert(init.take(m) =~= commands.take(m));
                assert(layout.after(commands.take(m)).x == layout.after(commands).reached_width);
            }
        } else {
            assert(layout.after(commands.take(commands.len() as int)).x == layout.after(
                commands,
            ).reached_width);
        }
    } else {
        assert(forall|m: int| 0 <= m <= commands.len() ==> commands.take(m) =~= commands);
    }
}

/// Whether command `m` paints, in a band whose lower edge is at `height`.
pub open spec fn paints_down_to(
    layout: Layout,
    commands: Seq<Command>,
    m: int,
    height: nat,
) -> bool {
    commands[m] is Paint && layout.after(commands.take(m)).band + 6 == height
}

/// The reached height is the lower edge of the lowest band that was painted in.
pub proof fn law_reached_height_is_the_lowest_band(layout: Layout, commands: Seq<Command>)
    ensures
        layout.reached_height <= layout.after(commands).reached_height,
        forall|m: int, height: nat|
            0 <= m < commands.len() && #[trigger] paints_down_to(layout, commands, m, height)
                ==> height <= layout.after(commands).reached_height,
        layout.after(commands).reached_height == layout.reached_height || (exists|m: int|
            0 <= m < commands.len() && #[trigger] paints_down_to(
                layout,
                commands,
                m,
                layout.after(commands).reached_height,
            )),
    decreases commands.len(),
{
    if commands.len() > 0 {
        let init = commands.drop_last();
        let last = commands.len() - 1;
        law_reached_height_is_the_lowest_band(layout, init);
        assert(commands.take(last) =~= init);
        assert forall|m: int, height: nat|
            0 <= m < commands.len() && #[trigger] paints_down_to(
                layout,
                commands,
                m,
                height,
            ) implies height <= layout.after(commands).reached_height by {
            if m < last {
                assert(init.take(m) =~= commands.take(m));
                assert(paints_down_to(layout, init, m, height));
            }
        }
        let reached = layout.after(commands).reached_height;
        if reached == layout.after(init).reached_height {
            if reached != layout.reached_height {
                let m = choose|m: int|
                    0 <= m < init.len() && #[trigger] paints_down_to(layout, init, m, reached);
                assert(init.take(m) =~= commands.take(m));
                assert(paints_down_to(layout, commands, m, reached));
            }
        } else {
            assert(paints_down_to(layout, commands, last, reached));
        }
    }
}

/// Whether a command is raster attributes of the given width.
pub open spec fn declares_width(command: Command, w: nat) -> bool {
    command matches Command::Raster { width, height } && width == w
}

/// Whether a command is raster attributes of the given height.
pub open spec fn declares_height(command: Command, h: nat) -> bool {
    command matches Command::Raster { width, height } && height == h
}

/// The declared size is the largest width and the largest height of all raster
/// attributes.
pub proof fn law_declared_size_is_the_largest(layout: Layout, commands: Seq<Command>)
    ensures
        layout.declared_width <= layout.after(commands).declared_width,
        layout.declared_height <= layout.after(commands).declared_height,
        forall|m: int|
            0 <= m < commands.len() ==> (#[trigger] commands[m] matches Command::Raster {
                width,
                height,
            } ==> width <= layout.after(commands).declared_width && height <= layout.after(
                commands,
            ).declared_height),
        layout.after(commands).declared_width == layout.declared_width || (exists|m: int|
            0 <= m < commands.len() && declares_width(
                #[trigger] commands[m],
                layout.after(commands).declared_width,
            )),
        layout.after(commands).declared_height == layout.declared_height || (exists|m: int|
            0 <= m < commands.len() && declares_height(
                #[trigger] commands[m],
                layout.after(commands).declared_height,
            )),
    decreases commands.len(),
{
    if commands.len() > 0 {
        let init = commands.drop_last();
        let last = commands.len() - 1;
        law_declared_size_is_the_largest(layout, init);
        assert forall|m: int| 0 <= m < commands.len() implies (
        #[trigger] commands[m] matches Command::Raster { width, height } ==> width <= layout.after(
            commands,
        ).declared_width && height <= layout.after(commands).declared_height) by {
            if m < last {
                assert(init[m] == commands[m]);
            }
        }
        let w = layout.after(commands).declared_width;
        if w != layout.declared_width {
            if w == layout.after(init).declared_width {
                let m = choose|m: int|
                    0 <= m < init.len() && declares_width(#[trigger] init[m], w);
                assert(declares_width(commands[m], w));
            } else {
                assert(declares_width(commands[last], w));
            }
        }
        let h = layout.after(commands).declared_height;
        if h != layout.declared_height {
            if h == layout.after(init).declared_height {
                let m = choose|m: int|
                    0 <= m < init.len() && declares_height(#[trigger] init[m], h);
                assert(declares_height(commands[m], h));
            } else {
                assert(declares_height(commands[last], h));
            }
        }
    }
}

/// A picture is as wide and as high as the larger of what was reached and what
/// was declared, has no pixels if it has no width or no height, and fits the
/// machine just if its counters and the bytes of its pixels do.
pub proof fn law_size_is_the_larger(layout: Layout)
    ensures
        layout.reached_width <= layout.width(),
        layout.declared_width <= layout.width(),
        layout.width() == layout.reached_width || layout.width() == layout.declared_width,
        layout.reached_height <= layout.height(),
        layout.declared_height <= layout.height(),
        layout.height() == layout.reached_height || layout.height() == layout.declared_height,
        layout.is_empty() <==> layout.width() * layout.height() == 0,
        layout.fits() <==> layout.band <= usize::MAX && layout.reached_width <= usize::MAX
            && layout.reached_height <= usize::MAX && 4 * (layout.width() * layout.height())
            <= isize::MAX,
        layout.fits() <==> layout.countable() && layout.holdable(),
        layout.countable() <==> layout.band <= usize::MAX && layout.reached_width <= usize::MAX
            && layout.reached_height <= usize::MAX,
{
    let (w, h) = (layout.width() as int, layout.height() as int);
    assert(w * h == 0 <==> w == 0 || h == 0) by (nonlinear_arith);
}

/// What is kept of a new picture is just what it takes to hold the pixels that
/// were set: each of them is kept, the last kept row has one, and the last kept
/// column of each row is one.
pub proof fn law_no_more_is_kept_than_needed(commands: Seq<Command>, x: int, y: int)
    ensures
        (exists|k: int|
            0 <= k < commands.len() && #[trigger] sets_pixel(Layout::initial(), commands, k, x, y))
            ==> 0 <= y < Layout::initial().after(commands).rows && 0 <= x < (
        Layout::initial().after(commands).columns)(y),
        x + 1 == (Layout::initial().after(commands).columns)(y) && x >= 0 ==> (exists|k: int|
            0 <= k < commands.len() && #[trigger] sets_pixel(Layout::initial(), commands, k, x, y)),
        y + 1 == Layout::initial().after(commands).rows && y >= 0 ==> (
        Layout::initial().after(commands).columns)(y) > 0,
    decreases commands.len(),
{
    let start = Layout::initial();
    if commands.len() > 0 {
        let init = commands.drop_last();
        let last = commands.len() - 1;
        let before = start.after(init);
        let after = start.after(commands);
        law_no_more_is_kept_than_needed(init, x, y);
        lemma_sets_pixel_before(start, commands, x, y);
        if let Command::Paint { bits, count } = commands[last] {
            lemma_sets_what_it_covers(before, bits, count as nat, x, y);
            lemma_depth(bits, 6);
            if before.band <= y < before.band + 6 {
                lemma_depth_below(bits, 6, y - before.band);
            }
            lemma_depth_last(bits, 6);
        }
        if exists|k: int|
            0 <= k < commands.len() && #[trigger] sets_pixel(start, commands, k, x, y) {
            let k = choose|k: int|
                0 <= k < commands.len() && #[trigger] sets_pixel(start, commands, k, x, y);
            if k < last {
                assert(sets_pixel(start, init, k, x, y));
            }
        }
        if x + 1 == (after.columns)(y) && x >= 0 {
            if (after.columns)(y) == (before.columns)(y) {
                let k = choose|k: int|
                    0 <= k < init.len() && #[trigger] sets_pixel(start, init, k, x, y);
                assert(sets_pixel(start, init, k, x, y));
                assert(sets_pixel(start, commands, k, x, y));
            } else {
                assert(sets_pixel(start, commands, last, x, y));
            }
        }
    }
}

/// A pixel that is set lies above the depth of its column.
proof fn lemma_depth_below(bits: u8, n: nat, k: int)
    requires
        0 <= k < n,
    ensures
        bit_set(bits, k) ==> k < depth(bits, n),
    decreases n,
{
    if k < n - 1 {
        lemma_depth_below(bits, (n - 1) as nat, k);
    }
}

/// The last pixel above the depth of a column is set.
proof fn lemma_depth_last(bits: u8, n: nat)
    ensures
        depth(bits, n) > 0 ==> bit_set(bits, depth(bits, n) - 1),
    decreases n,
{
    if n > 0 {
        lemma_depth_last(bits, (n - 1) as nat);
    }
}

/// Whether `level` is the nearest of the levels from 0 to 255 to `v` percent, the
/// larger one of two; more than a hundred percent are taken as a hundred.
pub open spec fn is_nearest_level(v: usize, level: u8) -> bool {
    if v <= 100 {
        -50 < 100 * level - 255 * v <= 50
    } else {
        level == 255
    }
}

/// Whether `color` has these percentages of red, of green and of blue.
pub open spec fn has_percentages(color: RGB8, red: usize, green: usize, blue: usize) -> bool {
    is_nearest_level(red, color.r) && is_nearest_level(green, color.g) && is_nearest_level(
        blue,
        color.b,
    )
}

/// Each channel of a color has the level of its own percentage, and changing the
/// percentages of the others does not change it.
pub proof fn law_channels_have_their_own_percentage(
    red: usize,
    green: usize,
    blue: usize,
    other: usize,
    another: usize,
)
    ensures
        has_percentages(percent_color(red, green, blue), red, green, blue),
        forall|color: RGB8| #[trigger]
            has_percentages(color, red, green, blue) ==> color == percent_color(red, green, blue),
        percent_color(red, green, blue).r == percent_color(red, other, another).r,
        percent_color(red, green, blue).g == percent_color(other, green, another).g,
        percent_color(red, green, blue).b == percent_color(other, another, blue).b,
        is_nearest_level(red, percent_level(red)),
        forall|level: u8| #[trigger] is_nearest_level(red, level) ==> level == percent_level(red),
{
    lemma_nearest_level(red);
    lemma_nearest_level(green);
    lemma_nearest_level(blue);
}

/// There is one nearest level.
proof fn lemma_nearest_level(v: usize)
    ensures
        is_nearest_level(v, percent_level(v)),
        forall|level: u8| #[trigger] is_nearest_level(v, level) ==> level == percent_level(v),
{
}

/// The levels of red, green and blue that the first registers have from the
/// start.
pub open spec fn first_levels() -> Seq<(u8, u8, u8)> {
    seq![
        (0u8, 0u8, 0u8),
        (51u8, 51u8, 204u8),
        (204u8, 33u8, 33u8),
        (51u8, 204u8, 51u8),
        (204u8, 51u8, 204u8),
        (51u8, 204u8, 204u8),
        (204u8, 204u8, 51u8),
        (135u8, 135u8, 135u8),
        (66u8, 66u8, 66u8),
        (84u8, 84u8, 153u8),
        (153u8, 66u8, 66u8),
        (84u8, 153u8, 84u8),
        (153u8, 84u8, 153u8),
        (84u8, 153u8, 153u8),
        (153u8, 153u8, 84u8),
        (204u8, 204u8, 204u8),
    ]
}

/// There are 256 registers. From the start the first sixteen have the VT340's
/// levels, and all others are black.
pub proof fn law_registers_begin_as_on_the_vt340(i: int)
    requires
        0 <= i < 256,
    ensures
        default_registers().len() == 256,
        i < 16 ==> default_registers()[i] == (Rgb {
            r: first_levels()[i].0,
            g: first_levels()[i].1,
            b: first_levels()[i].2,
        }),
        i >= 16 ==> default_registers()[i] == (Rgb { r: 0u8, g: 0u8, b: 0u8 }),
{
    assert(default_registers()[i] == default_color(i));
}

/// Whether `color` can come out of a definition: what the conversion gives for
/// hue, lightness and saturation in space 1, else the given percentages.
pub open spec fn is_defined_color<F: Fn(usize, usize, usize) -> RGB8>(
    command: Command,
    f: F,
    color: RGB8,
) -> bool {
    command matches Command::Define { register, space, x, y, z } && if space == 1 {
        call_ensures(f, (x, y, z), color)
    } else {
        has_percentages(color, x, y, z)
    }
}

/// Whether a command sets register `r`.
pub open spec fn sets_register(command: Command, r: int) -> bool {
    command matches Command::Define { register, space, x, y, z } && register == r
}

/// Whether a command chooses the color to paint with.
pub open spec fn chooses_color(command: Command) -> bool {
    command is Select || command is Define
}

/// What one command can do to an ink.
proof fn lemma_ink_may_become<F: Fn(usize, usize, usize) -> RGB8>(
    from: Ink,
    command: Command,
    f: F,
    to: Ink,
)
    requires
        may_become(from, command, f, to),
    ensures
        to.registers.len() == from.registers.len(),
        !chooses_color(command) ==> to == from,
        command matches Command::Select { register } ==> to.registers == from.registers && to.color
            == from.registers[if register < from.registers.len() {
            register as int
        } else {
            0
        }],
        command is Define ==> is_defined_color(command, f, to.color),
        forall|r: int|
            0 <= r < from.registers.len() ==> #[trigger] to.registers[r] == if sets_register(
                command,
                r,
            ) {
                to.color
            } else {
                from.registers[r]
            },
{
    if let Command::Define { register, space, x, y, z } = command {
        law_channels_have_their_own_percentage(x, y, z, 0, 0);
    }
}

/// A register has the color that it had before the commands, or the one that
/// came out of the last command that sets it. The number of registers stays.
pub proof fn law_register_has_last_definition<F: Fn(usize, usize, usize) -> RGB8>(
    inks: Seq<Ink>,
    commands: Seq<Command>,
    f: F,
    r: int,
    k: int,
)
    requires
        may_lead(inks, commands, f),
        0 <= r < inks[0].registers.len(),
    ensures
        inks.last().registers.len() == inks[0].registers.len(),
        (forall|j: int| 0 <= j < commands.len() ==> !sets_register(#[trigger] commands[j], r))
            ==> inks.last().registers[r] == inks[0].registers[r],
        0 <= k < commands.len() && sets_register(commands[k], r) && (forall|j: int|
            k < j < commands.len() ==> !sets_register(#[trigger] commands[j], r)) ==> {
            &&& inks.last().registers[r] == inks[k + 1].color
            &&& is_defined_color(commands[k], f, inks.last().registers[r])
        },
    decreases commands.len(),
{
    if commands.len() > 0 {
        let last = commands.len() - 1;
        let init = commands.drop_last();
        lemma_inks_before(inks, commands, f);
        law_register_has_last_definition(inks.drop_last(), init, f, r, k);
        assert(may_become(inks[last], commands[last], f, inks[last + 1]));
        lemma_ink_may_become(inks[last], commands[last], f, inks[last + 1]);
        assert(inks.drop_last().last() == inks[last]);
        assert(inks.last().registers[r] == if sets_register(commands[last], r) {
            inks.last().color
        } else {
            inks[last].registers[r]
        });
        if forall|j: int| 0 <= j < commands.len() ==> !sets_register(#[trigger] commands[j], r) {
            assert(!sets_register(commands[last], r));
            assert forall|j: int| 0 <= j < init.len() implies !sets_register(
                #[trigger] init[j],
                r,
            ) by {
                assert(!sets_register(commands[j], r));
            }
        }
        if 0 <= k < last && sets_register(commands[k], r) && (forall|j: int|
            k < j < commands.len() ==> !sets_register(#[trigger] commands[j], r)) {
            assert(!sets_register(commands[last], r));
            assert(sets_register(init[k], r));
            assert forall|j: int| k < j < init.len() implies !sets_register(
                #[trigger] init[j],
                r,
            ) by {
                assert(!sets_register(commands[j], r));
            }
        }
    }
}

/// Painting is done with the color of the last command that chooses one: what
/// came out of it if it is a definition, else the color that its register had
/// then, or register zero where there is no such register.
pub proof fn law_color_is_the_last_chosen<F: Fn(usize, usize, usize) -> RGB8>(
    inks: Seq<Ink>,
    commands: Seq<Command>,
    f: F,
    k: int,
)
    requires
        may_lead(inks, commands, f),
    ensures
        (forall|j: int| 0 <= j < commands.len() ==> !chooses_color(#[trigger] commands[j]))
            ==> inks.last().color == inks[0].color,
        0 <= k < commands.len() && (forall|j: int|
            k < j < commands.len() ==> !chooses_color(#[trigger] commands[j])) ==> {
            &&& commands[k] is Define ==> is_defined_color(commands[k], f, inks.last().color)
            &&& commands[k] matches Command::Select { register } ==> inks.last().color
                == inks[k].registers[if register < inks[k].registers.len() {
                register as int
            } else {
                0
            }]
        },
    decreases commands.len(),
{
    if commands.len() > 0 {
        let last = commands.len() - 1;
        let init = commands.drop_last();
        lemma_inks_before(inks, commands, f);
        law_color_is_the_last_chosen(inks.drop_last(), init, f, k);
        assert(may_become(inks[last], commands[last], f, inks[last + 1]));
        lemma_ink_may_become(inks[last], commands[last], f, inks[last + 1]);
        assert(inks.drop_last().last() == inks[last]);
        if forall|j: int| 0 <= j < commands.len() ==> !chooses_color(#[trigger] commands[j]) {
            assert(!chooses_color(commands[last]));
            assert forall|j: int| 0 <= j < init.len() implies !chooses_color(
                #[trigger] init[j],
            ) by {
                assert(!chooses_color(commands[j]));
            }
        }
        if 0 <= k < last && (forall|j: int|
            k < j < commands.len() ==> !chooses_color(#[trigger] commands[j])) {
            assert(!chooses_color(commands[last]));
            assert forall|j: int| k < j < init.len() implies !chooses_color(#[trigger] init[j]) by {
                assert(!chooses_color(commands[j]));
            }
            assert(inks.drop_last()[k] == inks[k]);
        }
    }
}

/// Inks that all of the commands lead through are led through by all but the
/// last.
proof fn lemma_inks_before<F: Fn(usize, usize, usize) -> RGB8>(
    inks: Seq<Ink>,
    commands: Seq<Command>,
    f: F,
)
    requires
        may_lead(inks, commands, f),
        commands.len() > 0,
    ensures
        may_lead(inks.drop_last(), commands.drop_last(), f),
{
    let init = commands.drop_last();
    assert forall|k: int| 0 <= k < init.len() implies may_become(
        inks.drop_last()[k],
        #[trigger] init[k],
        f,
        inks.drop_last()[k + 1],
    ) by {
        assert(may_become(inks[k], commands[k], f, inks[k + 1]));
    }
}

/// Whether `color` is what a definition says where `hls` converts hue, lightness
/// and saturation.
pub open spec fn is_said_color(command: Command, hls: Hls, color: RGB8) -> bool {
    command matches Command::Define { register, space, x, y, z } && if space == 1 {
        color == hls(x, y, z)
    } else {
        has_percentages(color, x, y, z)
    }
}

/// A picture's ink changes only by commands that choose a color: a definition
/// makes the color it says the current one, and that of its register where there
/// is one; a selection makes that of its register, or of register zero where
/// there is none, the current one. No other register ever changes.
pub proof fn law_color_commands_say_the_color(
    picture: Picture,
    commands: Seq<Command>,
    hls: Hls,
    k: int,
    r: int,
)
    requires
        0 <= k < commands.len(),
    ensures
        ({
            let from = inks_of(picture, commands, hls)[k];
            let to = inks_of(picture, commands, hls)[k + 1];
            &&& to.registers.len() == from.registers.len()
            &&& !chooses_color(commands[k]) ==> to == from
            &&& commands[k] is Define ==> is_said_color(commands[k], hls, to.color)
            &&& commands[k] matches Command::Select { register } ==> to.color
                == from.registers[if register < from.registers.len() {
                register as int
            } else {
                0
            }]
            &&& 0 <= r < from.registers.len() ==> to.registers[r] == if sets_register(
                commands[k],
                r,
            ) {
                to.color
            } else {
                from.registers[r]
            }
        }),
{
    assert(commands.take(k + 1).drop_last() =~= commands.take(k));
    assert(commands.take(k + 1).last() == commands[k]);
    if let Command::Define { register, space, x, y, z } = commands[k] {
        law_channels_have_their_own_percentage(x, y, z, 0, 0);
    }
}

/// A conversion computes `hls` on a stream just if for each definition in space
/// 1 it gives nothing but what `hls` gives for the same hue, lightness and
/// saturation. It takes part wherever it can be called on any three numbers.
pub proof fn law_conversion_is_asked_for_definitions<F: Fn(usize, usize, usize) -> RGB8>(
    f: F,
    hls: Hls,
    commands: Seq<Command>,
)
    ensures
        computes(f, hls, commands) <==> (forall|k: int, color: RGB8|
            #![trigger commands[k], is_defined_color(commands[k], f, color)]
            0 <= k < commands.len() && (commands[k] matches Command::Define {
                register,
                space,
                x,
                y,
                z,
            } && space == 1) && is_defined_color(commands[k], f, color) ==> is_said_color(
                commands[k],
                hls,
                color,
            )),
        accepts_hls(f) <==> (forall|h: usize, l: usize, s: usize| #[trigger]
            call_requires(f, (h, l, s))),
{
    if forall|k: int, color: RGB8|
        #![trigger commands[k], is_defined_color(commands[k], f, color)]
        0 <= k < commands.len() && (commands[k] matches Command::Define {
            register,
            space,
            x,
            y,
            z,
        } && space == 1) && is_defined_color(commands[k], f, color) ==> is_said_color(
            commands[k],
            hls,
            color,
        ) {
        assert forall|k: int| 0 <= k < commands.len() implies crate::picture::agrees_on(
            f,
            hls,
            #[trigger] commands[k],
        ) by {
            if let Command::Define { register, space, x, y, z } = commands[k] {
                if space == 1 {
                    assert forall|color: RGB8| #[trigger]
                        call_ensures(f, (x, y, z), color) implies color == hls(x, y, z) by {
                        assert(is_defined_color(commands[k], f, color));
                    }
                }
            }
        }
    }
    if computes(f, hls, commands) {
        assert forall|k: int, color: RGB8|
            #![trigger commands[k], is_defined_color(commands[k], f, color)]
            0 <= k < commands.len() && (commands[k] matches Command::Define {
                register,
                space,
                x,
                y,
                z,
            } && space == 1) && is_defined_color(commands[k], f, color) implies is_said_color(
            commands[k],
            hls,
            color,
        ) by {
            assert(crate::picture::agrees_on(f, hls, commands[k]));
        }
    }
}

/// What a run of commands can make of a picture is painted with inks that the
/// commands lead through, from the ink before to the ink behind, and reaches as
/// far as the commands lead.
pub proof fn law_painting_goes_through_inks<F: Fn(usize, usize, usize) -> RGB8>(
    from: Picture,
    commands: Seq<Command>,
    f: F,
    to: Picture,
) -> (inks: Seq<Ink>)
    requires
        may_paint(from, commands, f, to),
    ensures
        to.layout == from.layout.after(commands),
        may_lead(inks, commands, f),
        inks.len() == commands.len() + 1,
        inks[0] == from.ink,
        inks[commands.len() as int] == to.ink,
        to.canvas == painted_with(from.canvas, from.layout, commands, inks),
{
    choose|inks: Seq<Ink>| #[trigger]
        may_lead(inks, commands, f) && inks.first() == from.ink && inks.last() == to.ink
            && to.canvas == painted_with(from.canvas, from.layout, commands, inks)
}

/// A data character paints one column: the pixel `n` rows below the top of the
/// band gets the current color, fully opaque, just if the distance of the
/// character from `?` is odd when divided by two `n` times. All other pixels
/// stay.
pub proof fn law_data_character_paints_its_binary_digits(
    picture: Picture,
    c: char,
    hls: Hls,
    x: int,
    y: int,
)
    requires
        63 <= c as int <= 126,
    ensures
        (picture.after(commands(seq![c]), hls).canvas)(x, y) == if x == picture.layout.x && 0 <= y
            - picture.layout.band < 6 && ((c as int - 63) / vstd::arithmetic::power2::pow2(
            (y - picture.layout.band) as nat,
        ) as int) % 2 == 1 {
            Rgba {
                r: picture.ink.color.r,
                g: picture.ink.color.g,
                b: picture.ink.color.b,
                a: 255u8,
            }
        } else {
            (picture.canvas)(x, y)
        },
{
    assert(is_sixel(c));
    let paint = Command::Paint { bits: sixel_bits(c), count: 1 };
    let stream = seq![c];
    reveal_with_fuel(crate::stream::commands_from, 2);
    assert(commands(stream) =~= seq![paint]);
    assert(seq![paint].drop_last() =~= Seq::<Command>::empty());
    assert(picture.after(seq![paint], hls) == picture.after(Seq::<Command>::empty(), hls).step(
        paint,
        hls,
    ));
    assert(sixel_bits(c) as int == c as int - 63);
    lemma_sets_what_it_covers(picture.layout, sixel_bits(c), 1, x, y);
}

/// What holds of a picture between any two commands, number by number.
pub proof fn law_what_stays_true(picture: Picture, x: int, y: int)
    requires
        picture.wf(),
    ensures
        picture.ink.registers.len() == 256,
        REGISTERS == 256,
        picture.layout.x <= picture.layout.reached_width,
        picture.layout.rows <= picture.layout.reached_height,
        (picture.layout.columns)(y) <= picture.layout.reached_width,
        picture.layout.band % 6 == 0,
        picture.layout.reached_height % 6 == 0,
        picture.layout.reached_width == 0 <==> picture.layout.reached_height == 0,
        (picture.canvas)(x, y) == (Rgba { r: 0u8, g: 0u8, b: 0u8, a: 0u8 }) || (picture.canvas)(
            x,
            y,
        ).a == 255,
{
}

} // verus!
