//! What the commands of a sixel stream do to a picture.

use rgb::{Rgb, RGB8, RGBA8};
use vstd::prelude::*;

use crate::pixel::{opaque, transparent};
use crate::stream::{commands, data, Command};

verus! {

/// The number of color registers.
pub const REGISTERS: usize = 256;

/// The VT340 colors of the first registers, as percentages of red, green and
/// blue.
pub const VT340: [(usize, usize, usize); 16] = [
    (0, 0, 0),
    (20, 20, 80),
    (80, 13, 13),
    (20, 80, 20),
    (80, 20, 80),
    (20, 80, 80),
    (80, 80, 20),
    (53, 53, 53),
    (26, 26, 26),
    (33, 33, 60),
    (60, 26, 26),
    (33, 60, 33),
    (60, 33, 60),
    (33, 60, 60),
    (60, 60, 33),
    (80, 80, 80),
];

/// The larger of two numbers.
pub open spec fn larger(a: nat, b: nat) -> nat {
    if a < b {
        b
    } else {
        a
    }
}

/// A percentage on the scale from 0 to 255, rounded half up. Above a hundred
/// percent it stays at 255.
pub open spec fn percent_level(v: usize) -> u8 {
    if v < 100 {
        ((v * 255 + 50) / 100) as u8
    } else {
        255
    }
}

/// The color of three percentages.
pub open spec fn percent_color(r: usize, g: usize, b: usize) -> RGB8 {
    Rgb { r: percent_level(r), g: percent_level(g), b: percent_level(b) }
}

/// The color that register `i` has before a stream sets it.
pub open spec fn default_color(i: int) -> RGB8 {
    if 0 <= i < 16 {
        percent_color(VT340@[i].0, VT340@[i].1, VT340@[i].2)
    } else {
        Rgb { r: 0, g: 0, b: 0 }
    }
}

/// The registers before a stream sets any of them.
pub open spec fn default_registers() -> Seq<RGB8> {
    Seq::new(REGISTERS as nat, |i: int| default_color(i))
}

/// A conversion from hue, lightness and saturation to a color.
pub type Hls = spec_fn(usize, usize, usize) -> RGB8;

/// The color that `space` and its three components stand for: hue, lightness
/// and saturation in space 1, percentages of red, green and blue in any other.
pub open spec fn component_color(space: usize, x: usize, y: usize, z: usize, hls: Hls) -> RGB8 {
    if space == 1 {
        hls(x, y, z)
    } else {
        percent_color(x, y, z)
    }
}

/// Whether `f` takes every hue, lightness and saturation.
pub open spec fn accepts_hls<F: Fn(usize, usize, usize) -> RGB8>(f: F) -> bool {
    forall|h: usize, l: usize, s: usize| #[trigger] call_requires(f, (h, l, s))
}

/// Whether `f` returns what `hls` says for the color that `command` gives as
/// hue, lightness and saturation, if it gives one.
pub open spec fn agrees_on<F: Fn(usize, usize, usize) -> RGB8>(
    f: F,
    hls: Hls,
    command: Command,
) -> bool {
    command matches Command::Define { register, space, x, y, z } ==> space == 1 ==> (forall|
        color: RGB8,
    | #[trigger]
        call_ensures(f, (x, y, z), color) ==> color == hls(x, y, z))
}

/// Whether `f` returns what `hls` says for every color that the commands give
/// as hue, lightness and saturation.
pub open spec fn computes<F: Fn(usize, usize, usize) -> RGB8>(
    f: F,
    hls: Hls,
    commands: Seq<Command>,
) -> bool {
    forall|k: int| 0 <= k < commands.len() ==> agrees_on(f, hls, #[trigger] commands[k])
}

/// Whether `color` is what `space` and its three components can come out as
/// where `f` converts hue, lightness and saturation.
pub open spec fn may_yield<F: Fn(usize, usize, usize) -> RGB8>(
    f: F,
    space: usize,
    x: usize,
    y: usize,
    z: usize,
    color: RGB8,
) -> bool {
    if space == 1 {
        call_ensures(f, (x, y, z), color)
    } else {
        color == percent_color(x, y, z)
    }
}

/// The color registers, and the color that is painted with.
#[verifier::ext_equal]
pub struct Ink {
    pub registers: Seq<RGB8>,
    pub color: RGB8,
}

impl Ink {
    /// The ink that a stream begins with.
    pub open spec fn initial() -> Ink {
        Ink { registers: default_registers(), color: default_color(0) }
    }

    /// Paint with the color of `register`, or with that of register 0 where
    /// there is no such register.
    pub open spec fn select(self, register: usize) -> Ink {
        Ink {
            color: if register < self.registers.len() {
                self.registers[register as int]
            } else {
                self.registers[0]
            },
            ..self
        }
    }

    /// Paint with `color`, and keep it in `register` where there is one.
    pub open spec fn define(self, register: usize, color: RGB8) -> Ink {
        Ink {
            registers: if register < self.registers.len() {
                self.registers.update(register as int, color)
            } else {
                self.registers
            },
            color,
        }
    }

    /// The ink after a command.
    pub open spec fn step(self, command: Command, hls: Hls) -> Ink {
        match command {
            Command::Select { register } => self.select(register),
            Command::Define { register, space, x, y, z } => self.define(
                register,
                component_color(space, x, y, z, hls),
            ),
            _ => self,
        }
    }
}

/// Whether setting `register` to a color can turn the ink `from` into the ink
/// `to` where `f` converts hue, lightness and saturation.
pub open spec fn may_define<F: Fn(usize, usize, usize) -> RGB8>(
    from: Ink,
    register: usize,
    space: usize,
    x: usize,
    y: usize,
    z: usize,
    f: F,
    to: Ink,
) -> bool {
    exists|color: RGB8| #[trigger]
        may_yield(f, space, x, y, z, color) && to == from.define(register, color)
}

/// Whether a command can turn the ink `from` into the ink `to` where `f`
/// converts hue, lightness and saturation.
pub open spec fn may_become<F: Fn(usize, usize, usize) -> RGB8>(
    from: Ink,
    command: Command,
    f: F,
    to: Ink,
) -> bool {
    match command {
        Command::Select { register } => to == from.select(register),
        Command::Define { register, space, x, y, z } => may_define(
            from,
            register,
            space,
            x,
            y,
            z,
            f,
            to,
        ),
        _ => to == from,
    }
}

/// Whether no row keeps more than `width` columns.
pub open spec fn columns_within(columns: spec_fn(int) -> nat, width: nat) -> bool {
    forall|y: int| #[trigger] columns(y) <= width
}

/// Where the next column goes, how far the picture reaches, and how much of it
/// is kept.
#[verifier::ext_equal]
pub struct Layout {
    /// The next column.
    pub x: nat,
    /// The top row of the current band.
    pub band: nat,
    /// The columns and rows that data characters have taken up.
    pub reached_width: nat,
    pub reached_height: nat,
    /// The size that raster attributes have declared.
    pub declared_width: nat,
    pub declared_height: nat,
    /// The rows that are kept, which end with the last one painted on.
    pub rows: nat,
    /// The columns that are kept of each row, which end with the last one
    /// painted on.
    pub columns: spec_fn(int) -> nat,
}

impl Layout {
    /// The layout that a stream begins with.
    pub open spec fn initial() -> Layout {
        Layout {
            x: 0,
            band: 0,
            reached_width: 0,
            reached_height: 0,
            declared_width: 0,
            declared_height: 0,
            rows: 0,
            columns: |y: int| 0,
        }
    }

    /// What holds of a layout between any two commands: nothing lies outside
    /// what data characters have taken up, and that is whole bands.
    pub open spec fn wf(self) -> bool {
        &&& self.x <= self.reached_width
        &&& self.rows <= self.reached_height
        &&& columns_within(self.columns, self.reached_width)
        &&& self.band % 6 == 0
        &&& self.reached_height % 6 == 0
        &&& self.reached_width == 0 <==> self.reached_height == 0
    }

    /// The layout after `count` more columns of `bits`. A column takes up the
    /// whole band, whatever bits are set in it, but is kept only in the rows
    /// that it paints on.
    pub open spec fn advance(self, bits: u8, count: nat) -> Layout {
        Layout {
            x: self.x + count,
            reached_width: larger(self.reached_width, self.x + count),
            reached_height: larger(self.reached_height, self.band + 6),
            rows: if count > 0 && depth(bits, 6) > 0 {
                larger(self.rows, self.band + depth(bits, 6))
            } else {
                self.rows
            },
            columns: |y: int|
                if count > 0 && self.band <= y < self.band + 6 && bit_set(bits, y - self.band) {
                    larger((self.columns)(y), self.x + count)
                } else {
                    (self.columns)(y)
                },
            ..self
        }
    }

    /// The layout after a canvas size was declared.
    pub open spec fn declare(self, width: nat, height: nat) -> Layout {
        Layout {
            declared_width: larger(self.declared_width, width),
            declared_height: larger(self.declared_height, height),
            ..self
        }
    }

    /// The layout after a command.
    pub open spec fn step(self, command: Command) -> Layout {
        match command {
            Command::Raster { width, height } => self.declare(width as nat, height as nat),
            Command::Paint { bits, count } => self.advance(bits, count as nat),
            Command::Return => Layout { x: 0, ..self },
            Command::NewLine => Layout { x: 0, band: self.band + 6, ..self },
            _ => self,
        }
    }

    /// The layout after some commands.
    pub open spec fn after(self, commands: Seq<Command>) -> Layout
        decreases commands.len(),
    {
        if commands.len() == 0 {
            self
        } else {
            self.after(commands.drop_last()).step(commands.last())
        }
    }

    /// The width of the picture.
    pub open spec fn width(self) -> nat {
        larger(self.reached_width, self.declared_width)
    }

    /// The height of the picture.
    pub open spec fn height(self) -> nat {
        larger(self.reached_height, self.declared_height)
    }

    /// Whether the picture has no pixels at all.
    pub open spec fn is_empty(self) -> bool {
        self.width() == 0 || self.height() == 0
    }

    /// Whether the machine can count the columns and rows that data characters
    /// have taken up.
    pub open spec fn countable(self) -> bool {
        &&& self.band <= usize::MAX
        &&& self.reached_width <= usize::MAX
        &&& self.reached_height <= usize::MAX
    }

    /// Whether the machine can hold the pixels, of four bytes each, in one
    /// buffer.
    pub open spec fn holdable(self) -> bool {
        4 * (self.width() * self.height()) <= isize::MAX
    }

    /// Whether the machine can count the columns and rows of the picture and
    /// hold its pixels.
    pub open spec fn fits(self) -> bool {
        self.countable() && self.holdable()
    }

    /// Whether `count` columns of `bits`, painted from here, set the pixel at
    /// column `x` and row `y`.
    pub open spec fn covers(self, bits: u8, count: nat, x: int, y: int) -> bool {
        &&& self.x <= x < self.x + count
        &&& self.band <= y < self.band + 6
        &&& bit_set(bits, y - self.band)
    }
}

/// Whether bit `n` of `bits` is set, counting from the least significant one.
pub open spec fn bit_set(bits: u8, n: int) -> bool {
    bits & (1u8 << (n as usize)) != 0
}

/// How many rows it takes to hold the first `n` pixels of a column of `bits`
/// without the blank ones at their end.
pub open spec fn depth(bits: u8, n: nat) -> nat
    decreases n,
{
    if n == 0 {
        0
    } else if bit_set(bits, n - 1) {
        n
    } else {
        depth(bits, (n - 1) as nat)
    }
}

/// Whether none of the six pixels of a column of `bits` is set.
pub open spec fn is_blank(bits: u8) -> bool {
    forall|n: int| 0 <= n < 6 ==> !(#[trigger] bit_set(bits, n))
}

/// Whether a command sets no pixel at all.
pub open spec fn paints_nothing(command: Command) -> bool {
    command matches Command::Paint { bits, count } ==> is_blank(bits)
}

/// The pixel at each column and row.
pub type Canvas = spec_fn(int, int) -> RGBA8;

/// The canvas that a stream begins with.
pub open spec fn blank_canvas() -> Canvas {
    |x: int, y: int| transparent()
}

/// The canvas after `count` columns of `bits` were painted at `layout`.
pub open spec fn painted(
    canvas: Canvas,
    layout: Layout,
    bits: u8,
    count: nat,
    color: RGB8,
) -> Canvas {
    |x: int, y: int|
        if layout.covers(bits, count, x, y) {
            opaque(color)
        } else {
            canvas(x, y)
        }
}

/// The canvas after a command that finds it with the given layout and color.
pub open spec fn canvas_step(
    canvas: Canvas,
    layout: Layout,
    color: RGB8,
    command: Command,
) -> Canvas {
    match command {
        Command::Paint { bits, count } => painted(canvas, layout, bits, count as nat, color),
        _ => canvas,
    }
}

/// Whether each pixel was left alone or is fully opaque.
pub open spec fn is_clear_or_opaque(canvas: Canvas) -> bool {
    forall|x: int, y: int| #[trigger] canvas(x, y) == transparent() || canvas(x, y).a == 255
}

/// A picture in the making.
#[verifier::ext_equal]
pub struct Picture {
    pub layout: Layout,
    pub ink: Ink,
    pub canvas: Canvas,
}

impl Picture {
    /// The picture that a stream begins with.
    pub open spec fn initial() -> Picture {
        Picture { layout: Layout::initial(), ink: Ink::initial(), canvas: blank_canvas() }
    }

    /// What holds of a picture between any two commands: it has all of its
    /// registers, its layout is well formed, and each pixel is transparent or
    /// fully opaque.
    pub open spec fn wf(self) -> bool {
        &&& self.ink.registers.len() == REGISTERS
        &&& self.layout.wf()
        &&& is_clear_or_opaque(self.canvas)
    }

    /// The picture after a command.
    pub open spec fn step(self, command: Command, hls: Hls) -> Picture {
        Picture {
            layout: self.layout.step(command),
            ink: self.ink.step(command, hls),
            canvas: canvas_step(self.canvas, self.layout, self.ink.color, command),
        }
    }

    /// The picture after some commands.
    pub open spec fn after(self, commands: Seq<Command>, hls: Hls) -> Picture
        decreases commands.len(),
    {
        if commands.len() == 0 {
            self
        } else {
            self.after(commands.drop_last(), hls).step(commands.last(), hls)
        }
    }
}

/// Whether the commands, one after the other, can lead from each ink to the
/// next where `f` converts hue, lightness and saturation.
pub open spec fn may_lead<F: Fn(usize, usize, usize) -> RGB8>(
    inks: Seq<Ink>,
    commands: Seq<Command>,
    f: F,
) -> bool {
    &&& inks.len() == commands.len() + 1
    &&& forall|k: int|
        0 <= k < commands.len() ==> may_become(inks[k], #[trigger] commands[k], f, inks[k + 1])
}

/// The canvas after some commands that begin with `layout`, each of which paints
/// with the ink at its place.
pub open spec fn painted_with(
    canvas: Canvas,
    layout: Layout,
    commands: Seq<Command>,
    inks: Seq<Ink>,
) -> Canvas
    decreases commands.len(),
{
    if commands.len() == 0 {
        canvas
    } else {
        canvas_step(
            painted_with(canvas, layout, commands.drop_last(), inks.drop_last()),
            layout.after(commands.drop_last()),
            inks[commands.len() - 1].color,
            commands.last(),
        )
    }
}

/// Whether the commands can turn the picture `from` into the picture `to` where
/// `f` converts hue, lightness and saturation.
pub open spec fn may_paint<F: Fn(usize, usize, usize) -> RGB8>(
    from: Picture,
    commands: Seq<Command>,
    f: F,
    to: Picture,
) -> bool {
    &&& to.layout == from.layout.after(commands)
    &&& exists|inks: Seq<Ink>| #[trigger]
        may_lead(inks, commands, f) && inks.first() == from.ink && inks.last() == to.ink
            && to.canvas == painted_with(from.canvas, from.layout, commands, inks)
}

/// The layout that the commands of a sixel data stream lead to.
pub open spec fn layout_of(chars: Seq<char>) -> Layout {
    Layout::initial().after(commands(chars))
}

/// The picture that the commands of a sixel data stream paint.
pub open spec fn picture_of(chars: Seq<char>, hls: Hls) -> Picture {
    Picture::initial().after(commands(chars), hls)
}

/// Whether the picture in the body of a device control string, if there is
/// one, fits the machine.
pub open spec fn body_fits(body: Seq<char>) -> bool {
    data(body) matches Some(chars) ==> layout_of(chars).fits()
}

/// A column is held in at most as many rows as it has pixels, and in none just
/// if it is blank.
pub proof fn lemma_depth(bits: u8, n: nat)
    ensures
        depth(bits, n) <= n,
        depth(bits, n) == 0 <==> (forall|k: int| 0 <= k < n ==> !(#[trigger] bit_set(bits, k))),
    decreases n,
{
    if n > 0 {
        lemma_depth(bits, (n - 1) as nat);
        assert(!bit_set(bits, n - 1) || (exists|k: int| 0 <= k < n && #[trigger] bit_set(bits, k)));
    }
}

/// One column or more leave a layout well formed.
pub proof fn lemma_advance_wf(layout: Layout, bits: u8, count: nat)
    requires
        layout.wf(),
        count > 0,
    ensures
        layout.advance(bits, count).wf(),
{
    lemma_depth(bits, 6);
    let next = layout.advance(bits, count);
    assert forall|y: int| #[trigger] (next.columns)(y) <= next.reached_width by {
        assert((layout.columns)(y) <= layout.reached_width);
    }
}

/// Painting leaves each pixel as it was or fully opaque.
pub proof fn lemma_painted_pixels(
    canvas: Canvas,
    layout: Layout,
    bits: u8,
    count: nat,
    color: RGB8,
)
    requires
        is_clear_or_opaque(canvas),
    ensures
        is_clear_or_opaque(painted(canvas, layout, bits, count, color)),
{
    let next = painted(canvas, layout, bits, count, color);
    assert forall|x: int, y: int| #[trigger] next(x, y) == transparent() || next(x, y).a == 255 by {
        assert(canvas(x, y) == transparent() || canvas(x, y).a == 255);
    }
}

/// Commands only ever move the picture's extents outwards.
pub proof fn lemma_layout_grows(layout: Layout, commands: Seq<Command>)
    ensures
        layout.band <= layout.after(commands).band,
        layout.reached_width <= layout.after(commands).reached_width,
        layout.reached_height <= layout.after(commands).reached_height,
        layout.declared_width <= layout.after(commands).declared_width,
        layout.declared_height <= layout.after(commands).declared_height,
        layout.rows <= layout.after(commands).rows,
    decreases commands.len(),
{
    if commands.len() > 0 {
        lemma_layout_grows(layout, commands.drop_last());
    }
}

/// The layout after two runs of commands is the one that the second run makes
/// of the first one's.
pub proof fn lemma_layout_after_concat(layout: Layout, first: Seq<Command>, second: Seq<Command>)
    ensures
        layout.after(first + second) == layout.after(first).after(second),
    decreases second.len(),
{
    if second.len() == 0 {
        assert(first + second =~= first);
    } else {
        assert((first + second).drop_last() =~= first + second.drop_last());
        lemma_layout_after_concat(layout, first, second.drop_last());
    }
}

/// A picture's layout does not depend on the colors in it.
pub proof fn lemma_layout_of_picture(picture: Picture, commands: Seq<Command>, hls: Hls)
    ensures
        picture.after(commands, hls).layout == picture.layout.after(commands),
    decreases commands.len(),
{
    if commands.len() > 0 {
        lemma_layout_of_picture(picture, commands.drop_last(), hls);
    }
}

/// A command that can turn one ink into another does so as `hls` says, where
/// `hls` is what the conversion computes.
pub proof fn lemma_ink_step<F: Fn(usize, usize, usize) -> RGB8>(
    from: Ink,
    command: Command,
    f: F,
    to: Ink,
    hls: Hls,
)
    requires
        may_become(from, command, f, to),
        agrees_on(f, hls, command),
    ensures
        to == from.step(command, hls),
{
    if let Command::Define { register, space, x, y, z } = command {
        let color = choose|color: RGB8| #[trigger]
            may_yield(f, space, x, y, z, color) && to == from.define(register, color);
        assert(color == component_color(space, x, y, z, hls));
    }
}

/// The inks that commands can lead through, and what is painted with them, are
/// what `hls` says where `hls` is what the conversion computes.
pub proof fn lemma_computed_inks<F: Fn(usize, usize, usize) -> RGB8>(
    from: Picture,
    commands: Seq<Command>,
    inks: Seq<Ink>,
    f: F,
    hls: Hls,
)
    requires
        may_lead(inks, commands, f),
        inks.first() == from.ink,
        computes(f, hls, commands),
    ensures
        inks.last() == from.after(commands, hls).ink,
        painted_with(from.canvas, from.layout, commands, inks) == from.after(commands, hls).canvas,
    decreases commands.len(),
{
    if commands.len() > 0 {
        let init = commands.drop_last();
        let last = commands.len() - 1;
        assert forall|k: int| 0 <= k < init.len() implies may_become(
            inks.drop_last()[k],
            #[trigger] init[k],
            f,
            inks.drop_last()[k + 1],
        ) by {
            assert(may_become(inks[k], commands[k], f, inks[k + 1]));
        }
        assert(computes(f, hls, init)) by {
            assert forall|k: int| 0 <= k < init.len() implies agrees_on(
                f,
                hls,
                #[trigger] init[k],
            ) by {
                assert(agrees_on(f, hls, commands[k]));
            }
        }
        lemma_computed_inks(from, init, inks.drop_last(), f, hls);
        lemma_layout_of_picture(from, init, hls);
        assert(may_become(inks[last], commands[last], f, inks[last + 1]));
        assert(agrees_on(f, hls, commands[last]));
        lemma_ink_step(inks[last], commands[last], f, inks[last + 1], hls);
    }
}

/// Commands can turn a picture only into the one that `hls` says, where `hls` is
/// what the conversion computes.
pub proof fn lemma_computed_picture<F: Fn(usize, usize, usize) -> RGB8>(
    from: Picture,
    commands: Seq<Command>,
    f: F,
    to: Picture,
    hls: Hls,
)
    requires
        may_paint(from, commands, f, to),
        computes(f, hls, commands),
    ensures
        to == from.after(commands, hls),
{
    let inks = choose|inks: Seq<Ink>| #[trigger]
        may_lead(inks, commands, f) && inks.first() == from.ink && inks.last() == to.ink
            && to.canvas == painted_with(from.canvas, from.layout, commands, inks);
    lemma_computed_inks(from, commands, inks, f, hls);
    lemma_layout_of_picture(from, commands, hls);
}

} // verus!
