//! Sixel graphics decoding.
//!
//! Sixel images are carried in a DCS (Device Control String) of the form
//! `ESC P <macro-params> q <sixel-data> ST`. Each data character in the range
//! `?`..=`~` encodes one column of six vertically stacked pixels: subtracting
//! `0x3f` yields a six-bit value whose least-significant bit is the topmost
//! pixel. Bands of six pixels are stacked top-to-bottom, separated by the
//! graphics-newline command `-`.
//!
//! This module decodes the data portion (everything from the macro parameters
//! up to, but not including, the string terminator) into a tightly packed RGBA
//! buffer. Pixels never written by the stream are left transparent so an image
//! composites cleanly over the terminal background.

use rgb::{Rgb, RGB8, RGBA8};
use vstd::prelude::*;

use crate::picture::{
    accepts_hls, bit_set, blank_canvas, body_fits, canvas_step, computes, default_color,
    default_registers, depth, is_blank, larger, layout_of, lemma_advance_wf, lemma_depth,
    lemma_computed_picture, lemma_layout_after_concat, lemma_layout_grows, lemma_painted_pixels,
    may_become, may_lead, may_paint, may_yield, painted, painted_with, paints_nothing,
    percent_color, percent_level, picture_of, Canvas, Hls, Ink, Layout, Picture, REGISTERS, VT340,
};
use crate::pixel::{opaque, transparent};
use crate::reader::{read_color, read_raster, read_repeat};
use crate::stream::{
    color_command, command_at, commands, commands_from, data, lemma_command_end, raster_command,
    repeat_command, Command,
};

verus! {

/// A decoded sixel image as a row-major, tightly packed RGBA pixel buffer.
#[derive(Debug, PartialEq)]
pub struct Image {
    pub width: usize,
    pub height: usize,
    pub pixels: Vec<RGBA8>,
}

impl Clone for Image {
    fn clone(&self) -> (copy: Self)
        ensures
            copy.width == self.width,
            copy.height == self.height,
            copy.pixels@ == self.pixels@,
    {
        let copy = Image {
            width: self.width,
            height: self.height,
            pixels: self.pixels.clone(),
        };
        assert(copy.pixels@ =~= self.pixels@);
        copy
    }
}

impl Image {
    /// Whether the buffer holds one pixel for each column and row, and there
    /// is at least one.
    pub open spec fn wf(&self) -> bool {
        &&& self.width > 0
        &&& self.height > 0
        &&& self.pixels@.len() == self.width * self.height
    }

    /// The pixel at column `x` and row `y`.
    pub open spec fn pixel(&self, x: int, y: int) -> RGBA8 {
        self.pixels@[pixel_index(self.width as int, x, y)]
    }

    /// Whether each pixel was left alone or is fully opaque.
    pub open spec fn is_clear_or_opaque(&self) -> bool {
        forall|k: int|
            0 <= k < self.pixels@.len() ==> #[trigger] self.pixels@[k] == transparent()
                || self.pixels@[k].a == 255
    }

    /// Whether this is the part of a canvas that an image of its size shows.
    pub open spec fn shows(&self, canvas: Canvas) -> bool {
        forall|x: int, y: int|
            0 <= x < self.width && 0 <= y < self.height ==> #[trigger] self.pixel(x, y) == canvas(
                x,
                y,
            )
    }
}

/// Whether `decoded` is what a body describes, where `f` converts hue, lightness
/// and saturation: nothing where the body carries no `q` introducer or an empty
/// picture, else the whole of the picture. It is painted with inks that the
/// commands can lead through; where `f` computes a function there is one picture
/// only.
pub open spec fn decodes<F: Fn(usize, usize, usize) -> RGB8>(
    body: Seq<char>,
    f: F,
    decoded: Option<Image>,
) -> bool {
    match data(body) {
        None => decoded is None,
        Some(chars) => {
            &&& decoded is None <==> layout_of(chars).is_empty()
            &&& decoded matches Some(image) ==> {
                &&& image.wf()
                &&& image.width == layout_of(chars).width()
                &&& image.height == layout_of(chars).height()
                &&& image.is_clear_or_opaque()
                &&& exists|inks: Seq<Ink>| #[trigger]
                    may_lead(inks, commands(chars), f) && inks.first() == Ink::initial()
                        && image.shows(
                        painted_with(blank_canvas(), Layout::initial(), commands(chars), inks),
                    )
                &&& forall|hls: Hls| #[trigger]
                    computes(f, hls, commands(chars)) ==> image.shows(
                        picture_of(chars, hls).canvas,
                    )
            }
        },
    }
}

/// Decode the body of a sixel DCS: the characters between the `ESC P`
/// introducer and the string terminator. Returns `None` when the body carries
/// no `q` introducer or describes an empty image.
///
/// `hls_to_rgb` converts the colors that the stream gives as hue, lightness and
/// saturation.
pub fn decode<F: Fn(usize, usize, usize) -> RGB8>(body: &str, hls_to_rgb: F) -> (decoded: Option<
    Image,
>)
    requires
        body_fits(body@),
        accepts_hls(hls_to_rgb),
    ensures
        decodes(body@, hls_to_rgb, decoded),
{
    match sixel_data(body) {
        None => None,
        Some(chars) => {
            let mut decoder = Decoder::new();
            decoder.run(chars.as_slice(), &hls_to_rgb);
            decoder.into_image()
        },
    }
}

/// The sixel data of a body: it begins after the `q` that closes the DCS macro
/// parameters (P1;P2;P3). Anything before it is ignored: the default 1:1 pixel
/// aspect ratio is assumed.
pub fn sixel_data(body: &str) -> (chars: Option<Vec<char>>)
    ensures
        match chars {
            Some(chars) => data(body@) == Some(chars@),
            None => data(body@) is None,
        },
{
    let mut found: bool = false;
    let mut chars: Vec<char> = Vec::new();
    assert(body@.skip(0) =~= body@);
    for c in it: body.chars()
        invariant
            it.seq() == body@,
            !found ==> data(body@) == data(body@.skip(it.index() as int)) && chars@.len() == 0,
            found ==> data(body@) == Some(chars@ + body@.skip(it.index() as int)),
    {
        proof {
            let rest = body@.skip(it.index() as int);
            assert(rest.first() == c);
            assert(rest.drop_first() =~= body@.skip(it.index() + 1));
            assert(chars@ + rest =~= chars@.push(c) + rest.drop_first());
            assert(Seq::<char>::empty() + rest.drop_first() =~= rest.drop_first());
            assert(!found ==> chars@ =~= Seq::<char>::empty());
        }
        if found {
            chars.push(c);
        } else if c == 'q' {
            found = true;
        }
    }
    if found {
        assert(chars@ + body@.skip(body@.len() as int) =~= chars@);
        Some(chars)
    } else {
        None
    }
}

/// The pixel at column `x` and row `y` of rows that may be shorter than the
/// picture.
pub open spec fn row_pixel(rows: Seq<Vec<RGBA8>>, x: int, y: int) -> RGBA8 {
    if 0 <= y < rows.len() && 0 <= x < rows[y]@.len() {
        rows[y]@[x]
    } else {
        transparent()
    }
}

/// The columns of row `y`, none where there is no such row.
pub open spec fn row_len(rows: Seq<Vec<RGBA8>>, y: int) -> nat {
    if 0 <= y < rows.len() {
        rows[y]@.len()
    } else {
        0
    }
}

/// The columns of each row.
pub open spec fn row_lens(rows: Seq<Vec<RGBA8>>) -> spec_fn(int) -> nat {
    |y: int| row_len(rows, y)
}

/// The pixel at each column and row.
pub open spec fn row_pixels(rows: Seq<Vec<RGBA8>>) -> Canvas {
    |x: int, y: int| row_pixel(rows, x, y)
}

/// Where the pixel at column `x` and row `y` stands in a row-major buffer.
pub open spec fn pixel_index(width: int, x: int, y: int) -> int {
    y * width + x
}

/// Whether each pixel of a buffer has a place of its own.
spec fn pixel_indices_differ(width: int, height: int) -> bool {
    &&& forall|x: int, y: int|
        0 <= x < width && 0 <= y < height ==> 0 <= #[trigger] pixel_index(width, x, y) < width
            * height
    &&& forall|x: int, y: int, a: int, b: int|
        0 <= x < width && 0 <= y < height && 0 <= a < width && 0 <= b < height && (x != a || y != b)
            ==> #[trigger] pixel_index(width, x, y) != #[trigger] pixel_index(width, a, b)
}

/// Row-major places are inside the buffer and differ from pixel to pixel.
proof fn lemma_pixel_indices(width: int, height: int)
    requires
        width > 0,
        height > 0,
    ensures
        pixel_indices_differ(width, height),
{
    assert forall|x: int, y: int| 0 <= x < width && 0 <= y < height implies 0
        <= #[trigger] pixel_index(width, x, y) < width * height by {
        assert(0 <= y * width + x < width * height) by (nonlinear_arith)
            requires
                0 <= x < width,
                0 <= y < height,
        ;
    }
    assert forall|x: int, y: int, a: int, b: int|
        0 <= x < width && 0 <= y < height && 0 <= a < width && 0 <= b < height && (x != a || y
            != b) implies #[trigger] pixel_index(width, x, y) != #[trigger] pixel_index(
        width,
        a,
        b,
    ) by {
        assert(y * width + x != b * width + a) by (nonlinear_arith)
            requires
                0 <= x < width,
                0 <= a < width,
                x != a || y != b,
        ;
    }
}

/// Each place of a row-major buffer is that of a pixel.
pub proof fn lemma_index_of_pixel(width: int, height: int, k: int)
    requires
        0 < width,
        0 <= k < width * height,
    ensures
        0 <= k % width < width,
        0 <= k / width < height,
        pixel_index(width, k % width, k / width) == k,
{
    assert(0 <= k % width < width && 0 <= k / width < height && (k / width) * width + k % width
        == k) by (nonlinear_arith)
        requires
            0 < width,
            0 <= k < width * height,
    ;
}

/// A decoder in the middle of a stream.
pub struct Decoder {
    pub palette: Vec<RGB8>,
    pub color: RGB8,
    /// Current pixel column.
    pub x: usize,
    /// Top pixel row of the current six-pixel band.
    pub band: usize,
    /// Pixel rows, each a tightly packed slice of columns. Grown lazily.
    pub rows: Vec<Vec<RGBA8>>,
    /// Extents reached so far, including columns advanced over empty data.
    pub max_width: usize,
    pub max_height: usize,
    /// Canvas size declared via the raster-attributes command, if any.
    pub declared_width: usize,
    pub declared_height: usize,
}

impl Decoder {
    /// Where the decoder stands, how far its picture reaches, and how much of it
    /// is kept.
    pub open spec fn layout(&self) -> Layout {
        Layout {
            x: self.x as nat,
            band: self.band as nat,
            reached_width: self.max_width as nat,
            reached_height: self.max_height as nat,
            declared_width: self.declared_width as nat,
            declared_height: self.declared_height as nat,
            rows: self.rows@.len(),
            columns: row_lens(self.rows@),
        }
    }

    /// The registers and the current color.
    pub open spec fn ink(&self) -> Ink {
        Ink { registers: self.palette@, color: self.color }
    }

    /// What has been painted.
    pub open spec fn canvas(&self) -> Canvas {
        row_pixels(self.rows@)
    }

    /// The picture so far.
    pub open spec fn picture(&self) -> Picture {
        Picture { layout: self.layout(), ink: self.ink(), canvas: self.canvas() }
    }

    /// Whether the rows lie inside a canvas of the given size.
    spec fn rows_within(&self, width: int, height: int) -> bool {
        &&& self.rows@.len() <= height
        &&& forall|y: int| 0 <= y < self.rows@.len() ==> (#[trigger] self.rows@[y])@.len() <= width
    }

    /// What holds of the decoder between any two commands.
    pub open spec fn wf(&self) -> bool {
        self.picture().wf()
    }

    /// Whether two decoders agree in every field.
    pub open spec fn same(&self, other: &Decoder) -> bool {
        &&& self.palette@ == other.palette@
        &&& self.color == other.color
        &&& self.x == other.x
        &&& self.band == other.band
        &&& self.rows@.len() == other.rows@.len()
        &&& forall|y: int|
            0 <= y < self.rows@.len() ==> (#[trigger] self.rows@[y])@ == other.rows@[y]@
        &&& self.max_width == other.max_width
        &&& self.max_height == other.max_height
        &&& self.declared_width == other.declared_width
        &&& self.declared_height == other.declared_height
    }

    /// Two decoders have the same picture just if they agree in every field.
    pub proof fn law_picture_tells_all(a: Decoder, b: Decoder)
        ensures
            a.picture() == b.picture() <==> a.same(&b),
    {
        if a.picture() == b.picture() {
            assert forall|y: int| 0 <= y < a.rows@.len() implies (#[trigger] a.rows@[y])@
                == b.rows@[y]@ by {
                assert(row_lens(a.rows@)(y) == row_lens(b.rows@)(y));
                assert forall|x: int| 0 <= x < a.rows@[y]@.len() implies a.rows@[y]@[x]
                    == b.rows@[y]@[x] by {
                    assert(row_pixels(a.rows@)(x, y) == row_pixels(b.rows@)(x, y));
                }
                assert(a.rows@[y]@ =~= b.rows@[y]@);
            }
        }
        if a.same(&b) {
            assert forall|y: int| row_len(a.rows@, y) == row_len(b.rows@, y) by {
                if 0 <= y < a.rows@.len() {
                    assert(a.rows@[y]@ == b.rows@[y]@);
                }
            }
            assert forall|x: int, y: int| row_pixel(a.rows@, x, y) == row_pixel(b.rows@, x, y) by {
                if 0 <= y < a.rows@.len() {
                    assert(a.rows@[y]@ == b.rows@[y]@);
                }
            }
            assert(row_lens(a.rows@) =~= row_lens(b.rows@));
            assert(row_pixels(a.rows@) =~= row_pixels(b.rows@));
            assert(a.ink() =~= b.ink());
            assert(a.layout() =~= b.layout());
        }
    }

    /// A decoder that has read nothing yet.
    pub fn new() -> (decoder: Self)
        ensures
            decoder.wf(),
            decoder.layout() == Layout::initial(),
            decoder.ink() == Ink::initial(),
            decoder.canvas() == blank_canvas(),
    {
        let palette = default_palette();
        let color = palette[0];
        let decoder = Decoder {
            palette,
            color,
            x: 0,
            band: 0,
            rows: Vec::new(),
            max_width: 0,
            max_height: 0,
            declared_width: 0,
            declared_height: 0,
        };
        assert(decoder.canvas() =~= blank_canvas());
        assert(decoder.layout() =~= Layout::initial());
        decoder
    }

    /// Read a stream, or the next piece of one.
    pub fn run<F: Fn(usize, usize, usize) -> RGB8>(&mut self, chars: &[char], hls_to_rgb: &F)
        requires
            old(self).wf(),
            accepts_hls(*hls_to_rgb),
            old(self).layout().after(commands(chars@)).countable(),
        ensures
            final(self).wf(),
            may_paint(old(self).picture(), commands(chars@), *hls_to_rgb, final(self).picture()),
            forall|hls: Hls| #[trigger]
                computes(*hls_to_rgb, hls, commands(chars@)) ==> final(self).picture() == old(
                    self,
                ).picture().after(commands(chars@), hls),
            (forall|k: int|
                0 <= k < commands(chars@).len() ==> paints_nothing(#[trigger] commands(chars@)[k]))
                ==> final(self).rows == old(self).rows,
    {
        let ghost start = *self;
        let ghost mut done: Seq<Command> = Seq::empty();
        let ghost mut inks: Seq<Ink> = seq![self.ink()];
        let mut i: usize = 0;
        while i < chars.len()
            invariant
                i <= chars@.len(),
                self.wf(),
                accepts_hls(*hls_to_rgb),
                done + commands_from(chars@, i as int) =~= commands(chars@),
                start.layout().after(commands(chars@)).countable(),
                self.layout() == start.layout().after(done),
                may_lead(inks, done, *hls_to_rgb),
                inks.first() == start.ink(),
                inks.last() == self.ink(),
                self.canvas() == painted_with(start.canvas(), start.layout(), done, inks),
                (forall|k: int|
                    0 <= k < commands(chars@).len() ==> paints_nothing(
                        #[trigger] commands(chars@)[k],
                    )) ==> self.rows == start.rows,
            decreases chars.len() - i,
        {
            let ghost command = command_at(chars@, i as int).0;
            let ghost next = command_at(chars@, i as int).1;
            let ghost rest = commands_from(chars@, next);
            let ghost prev = *self;
            proof {
                lemma_command_end(chars@, i as int);
                assert(commands(chars@) =~= done.push(command) + rest);
                assert(done.push(command).drop_last() =~= done);
                lemma_layout_after_concat(start.layout(), done.push(command), rest);
                lemma_layout_grows(start.layout().after(done.push(command)), rest);
            }
            let c: char = chars[i];
            if c == '#' {
                i = self.handle_color(chars, i + 1, hls_to_rgb);
            } else if c == '"' {
                i = self.handle_raster(chars, i + 1);
            } else if c == '!' {
                i = self.handle_repeat(chars, i + 1);
            } else if c == '$' {
                self.x = 0;
                i += 1;
            } else if c == '-' {
                self.x = 0;
                self.band += 6;
                i += 1;
            } else if '?' <= c && c <= '~' {
                self.put_sixel(c as u8 - 0x3f, 1);
                i += 1;
            } else {
                // Whitespace and any unrecognized control characters are
                // ignored, matching how real decoders skip stream padding.
                i += 1;
            }
            proof {
                assert(i == next);
                assert(commands(chars@)[done.len() as int] == command);
                assert(self.layout() == prev.layout().step(command));
                assert(may_become(prev.ink(), command, *hls_to_rgb, self.ink()));
                assert(self.canvas() =~= canvas_step(
                    prev.canvas(),
                    prev.layout(),
                    prev.color,
                    command,
                ));
                assert(inks.push(self.ink()).drop_last() =~= inks);
                done = done.push(command);
                inks = inks.push(self.ink());
            }
        }
        proof {
            assert(done =~= commands(chars@));
            assert(may_paint(start.picture(), commands(chars@), *hls_to_rgb, self.picture()));
            assert forall|hls: Hls| #[trigger]
                computes(*hls_to_rgb, hls, commands(chars@)) implies self.picture()
                == start.picture().after(commands(chars@), hls) by {
                lemma_computed_picture(
                    start.picture(),
                    commands(chars@),
                    *hls_to_rgb,
                    self.picture(),
                    hls,
                );
            }
        }
    }

    /// `#Pc` selects color register `Pc`; `#Pc;Pu;Px;Py;Pz` defines it. `Pu` is
    /// the color space: `2` for RGB, `1` for HLS, both with components scaled
    /// to 0..=100 (hue is 0..360).
    pub fn handle_color<F: Fn(usize, usize, usize) -> RGB8>(
        &mut self,
        chars: &[char],
        start: usize,
        hls_to_rgb: &F,
    ) -> (next: usize)
        requires
            old(self).wf(),
            accepts_hls(*hls_to_rgb),
        ensures
            final(self).wf(),
            final(self).layout() == old(self).layout(),
            final(self).rows == old(self).rows,
            next == color_command(chars@, start as int).1,
            may_become(
                old(self).ink(),
                color_command(chars@, start as int).0,
                *hls_to_rgb,
                final(self).ink(),
            ),
    {
        let (command, next): (Command, usize) = read_color(chars, start);
        match command {
            Command::Select { register } => {
                self.color = if register < self.palette.len() {
                    self.palette[register]
                } else {
                    self.palette[0]
                };
            },
            Command::Define { register, space, x, y, z } => {
                let color = if space == 1 {
                    (*hls_to_rgb)(x, y, z)
                } else {
                    rgb_from_percent(x, y, z)
                };
                if register < self.palette.len() {
                    self.palette[register] = color;
                }
                self.color = color;
                assert(may_yield(*hls_to_rgb, space, x, y, z, color));
                assert(self.ink() =~= old(self).ink().define(register, color));
            },
            _ => {},
        }
        next
    }

    /// `"Pan;Pad;Ph;Pv` declares the pixel aspect ratio (ignored) and the
    /// raster width `Ph` and height `Pv`, which size the canvas even where the
    /// stream leaves trailing rows or columns blank.
    pub fn handle_raster(&mut self, chars: &[char], start: usize) -> (next: usize)
        requires
            old(self).wf(),
        ensures
            final(self).wf(),
            final(self).layout() == old(self).layout().step(
                raster_command(chars@, start as int).0,
            ),
            final(self).ink() == old(self).ink(),
            final(self).rows == old(self).rows,
            next == raster_command(chars@, start as int).1,
    {
        let (command, next): (Command, usize) = read_raster(chars, start);
        if let Command::Raster { width, height } = command {
            if self.declared_width < width {
                self.declared_width = width;
            }
            if self.declared_height < height {
                self.declared_height = height;
            }
        }
        next
    }

    /// `!Pn<c>` repeats the sixel data character `c` `Pn` times.
    pub fn handle_repeat(&mut self, chars: &[char], start: usize) -> (next: usize)
        requires
            old(self).wf(),
            repeat_command(chars@, start as int).0 matches Command::Paint { bits, count } ==> {
                &&& old(self).x + count <= usize::MAX
                &&& old(self).band + 6 <= usize::MAX
            },
        ensures
            final(self).wf(),
            final(self).layout() == old(self).layout().step(
                repeat_command(chars@, start as int).0,
            ),
            final(self).ink() == old(self).ink(),
            final(self).canvas() == canvas_step(
                old(self).canvas(),
                old(self).layout(),
                old(self).color,
                repeat_command(chars@, start as int).0,
            ),
            paints_nothing(repeat_command(chars@, start as int).0) ==> final(self).rows == old(
                self,
            ).rows,
            next == repeat_command(chars@, start as int).1,
    {
        let (command, next): (Command, usize) = read_repeat(chars, start);
        if let Command::Paint { bits, count } = command {
            self.put_sixel(bits, count);
        }
        next
    }

    /// Paint `count` consecutive columns from one six-bit sixel value, the
    /// least-significant bit being the topmost pixel of the current band.
    pub fn put_sixel(&mut self, value: u8, count: usize)
        requires
            old(self).wf(),
            old(self).x + count <= usize::MAX,
            old(self).band + 6 <= usize::MAX,
        ensures
            count > 0 ==> final(self).wf(),
            final(self).layout() == old(self).layout().advance(value, count as nat),
            final(self).ink() == old(self).ink(),
            final(self).canvas() == painted(
                old(self).canvas(),
                old(self).layout(),
                value,
                count as nat,
                old(self).color,
            ),
            is_blank(value) ==> final(self).rows == old(self).rows,
    {
        let ghost start = *self;
        let ghost bottom = larger(self.max_height as nat, (self.band + 6) as nat);
        assert(self.canvas() =~= painted(start.canvas(), start.layout(), value, 0, start.color));
        assert(self.layout().columns =~= start.layout().advance(value, 0).columns);
        let mut n: usize = 0;
        while n < count
            invariant
                n <= count,
                start.x + count <= usize::MAX,
                start.band + 6 <= usize::MAX,
                start.x <= start.max_width,
                bottom == larger(start.max_height as nat, (start.band + 6) as nat),
                start.max_height <= self.max_height <= bottom,
                self.layout() == (Layout {
                    reached_height: self.max_height as nat,
                    ..start.layout().advance(value, n as nat)
                }),
                self.ink() == start.ink(),
                is_blank(value) ==> self.rows == start.rows,
                self.canvas() == painted(
                    start.canvas(),
                    start.layout(),
                    value,
                    n as nat,
                    start.color,
                ),
            decreases count - n,
        {
            let ghost before = self.rows@;
            let mut bit: usize = 0;
            while bit < 6
                invariant
                    bit <= 6,
                    n < count,
                    start.x + count <= usize::MAX,
                    start.band + 6 <= usize::MAX,
                    bottom == larger(start.max_height as nat, (start.band + 6) as nat),
                    start.max_height <= self.max_height <= bottom,
                    self.layout() == (Layout {
                        reached_height: self.max_height as nat,
                        rows: self.rows@.len(),
                        columns: row_lens(self.rows@),
                        ..start.layout().advance(value, n as nat)
                    }),
                    self.ink() == start.ink(),
                    is_blank(value) ==> self.rows == start.rows,
                    self.rows@.len() == if depth(value, bit as nat) > 0 {
                        larger(before.len(), self.band as nat + depth(value, bit as nat))
                    } else {
                        before.len()
                    },
                    forall|b: int| #[trigger]
                        row_len(self.rows@, b) == if self.band <= b < self.band + bit && bit_set(
                            value,
                            b - self.band,
                        ) {
                            larger(row_len(before, b), (self.x + 1) as nat)
                        } else {
                            row_len(before, b)
                        },
                    forall|a: int, b: int| #[trigger]
                        row_pixel(self.rows@, a, b) == if a == self.x && self.band <= b < self.band
                            + bit && bit_set(value, b - self.band) {
                            opaque(start.color)
                        } else {
                            row_pixel(before, a, b)
                        },
                decreases 6 - bit,
            {
                proof {
                    lemma_depth(value, bit as nat);
                    assert(bit_set(value, bit as int) == (value & (1u8 << bit) != 0));
                }
                if value & (1u8 << bit) != 0 {
                    self.plot(self.x, self.band + bit);
                }
                bit += 1;
            }
            proof {
                assert forall|b: int| row_len(self.rows@, b) == (start.layout().advance(
                    value,
                    (n + 1) as nat,
                ).columns)(b) by {
                    assert(row_len(before, b) == row_lens(before)(b));
                }
                assert forall|a: int, b: int| row_pixel(self.rows@, a, b) == painted(
                    start.canvas(),
                    start.layout(),
                    value,
                    (n + 1) as nat,
                    start.color,
                )(a, b) by {
                    assert(row_pixel(before, a, b) == row_pixels(before)(a, b));
                }
            }
            self.x += 1;
            if self.max_width < self.x {
                self.max_width = self.x;
            }
            n += 1;
            assert(self.layout().columns =~= start.layout().advance(value, n as nat).columns);
            assert(self.canvas() =~= painted(
                start.canvas(),
                start.layout(),
                value,
                n as nat,
                start.color,
            ));
        }
        // A data character occupies the full six-pixel band even when only
        // some bits are set, so the canvas is band-aligned in height.
        if self.max_height < self.band + 6 {
            self.max_height = self.band + 6;
        }
        proof {
            if count > 0 {
                lemma_advance_wf(start.layout(), value, count as nat);
                lemma_painted_pixels(
                    start.canvas(),
                    start.layout(),
                    value,
                    count as nat,
                    start.color,
                );
            }
        }
    }

    /// The image that was painted, if there is one.
    pub fn into_image(self) -> (decoded: Option<Image>)
        requires
            self.wf(),
            self.layout().holdable(),
        ensures
            decoded is None <==> self.layout().is_empty(),
            decoded matches Some(image) ==> {
                &&& image.wf()
                &&& image.width == self.layout().width()
                &&& image.height == self.layout().height()
                &&& image.shows(self.canvas())
                &&& image.is_clear_or_opaque()
            },
    {
        let width: usize = if self.max_width < self.declared_width {
            self.declared_width
        } else {
            self.max_width
        };
        let height: usize = if self.max_height < self.declared_height {
            self.declared_height
        } else {
            self.max_height
        };
        if width == 0 || height == 0 {
            return None;
        }
        let mut image = Image {
            width,
            height,
            pixels: vec![RGBA8::new(0, 0, 0, 0); width * height],
        };
        proof {
            lemma_pixel_indices(width as int, height as int);
            assert forall|y: int| 0 <= y < self.rows@.len() implies (
            #[trigger] self.rows@[y])@.len() <= width by {
                assert((self.layout().columns)(y) <= self.max_width);
            }
        }
        let mut y: usize = 0;
        while y < self.rows.len()
            invariant
                image.wf(),
                image.width == width,
                image.height == height,
                self.rows_within(width as int, height as int),
                pixel_indices_differ(width as int, height as int),
                y <= self.rows@.len(),
                forall|a: int, b: int|
                    0 <= a < width && 0 <= b < height ==> #[trigger] image.pixel(a, b) == if b < y {
                        row_pixel(self.rows@, a, b)
                    } else {
                        transparent()
                    },
            decreases self.rows.len() - y,
        {
            let row = &self.rows[y];
            let mut x: usize = 0;
            while x < row.len()
                invariant
                    image.wf(),
                    image.width == width,
                    image.height == height,
                    self.rows_within(width as int, height as int),
                    pixel_indices_differ(width as int, height as int),
                    y < self.rows@.len(),
                    row == self.rows@[y as int],
                    x <= row@.len(),
                    forall|a: int, b: int|
                        0 <= a < width && 0 <= b < height ==> #[trigger] image.pixel(a, b) == if b
                            < y || (b == y && a < x) {
                            row_pixel(self.rows@, a, b)
                        } else {
                            transparent()
                        },
                decreases row.len() - x,
            {
                assert(pixel_index(width as int, x as int, y as int) < width * height);
                assert(0 <= y * width) by (nonlinear_arith);
                assert(width * height == image.pixels.len());
                let ghost before = image;
                image.pixels[y * width + x] = row[x];
                assert forall|a: int, b: int|
                    0 <= a < width && 0 <= b < height implies #[trigger] image.pixel(a, b) == if a
                    == x && b == y {
                    row@[x as int]
                } else {
                    before.pixel(a, b)
                } by {
                    if a != x || b != y {
                        assert(pixel_index(width as int, a, b) != pixel_index(
                            width as int,
                            x as int,
                            y as int,
                        ));
                    }
                }
                x += 1;
            }
            y += 1;
        }
        proof {
            assert forall|k: int| 0 <= k < image.pixels@.len() implies (
            #[trigger] image.pixels@[k] == transparent() || image.pixels@[k].a == 255) by {
                lemma_index_of_pixel(width as int, height as int, k);
                let (a, b) = (k % (width as int), k / (width as int));
                assert(image.pixel(a, b) == self.canvas()(a, b));
            }
        }
        Some(image)
    }

    /// Paint one pixel with the current color.
    pub fn plot(&mut self, x: usize, y: usize)
        requires
            x < usize::MAX,
            y < usize::MAX,
        ensures
            forall|a: int, b: int| #[trigger]
                row_pixel(final(self).rows@, a, b) == if a == x && b == y {
                    opaque(old(self).color)
                } else {
                    row_pixel(old(self).rows@, a, b)
                },
            final(self).rows@.len() == larger(old(self).rows@.len(), (y + 1) as nat),
            forall|b: int| #[trigger]
                row_len(final(self).rows@, b) == if b == y {
                    larger(row_len(old(self).rows@, b), (x + 1) as nat)
                } else {
                    row_len(old(self).rows@, b)
                },
            final(self).ink() == old(self).ink(),
            final(self).layout() == (Layout {
                reached_height: larger(old(self).max_height as nat, (y + 1) as nat),
                rows: final(self).rows@.len(),
                columns: row_lens(final(self).rows@),
                ..old(self).layout()
            }),
    {
        let pixel = self.color.with_alpha(255);
        if self.rows.len() <= y {
            self.rows.resize(y + 1, Vec::new());
        }
        let ghost grown = self.rows@;
        assert(forall|a: int, b: int| row_pixel(grown, a, b) == row_pixel(old(self).rows@, a, b));
        assert(forall|b: int| row_len(grown, b) == row_len(old(self).rows@, b));
        let row = &mut self.rows[y];
        if row.len() <= x {
            row.resize(x + 1, RGBA8::new(0, 0, 0, 0));
        }
        row[x] = pixel;
        if self.max_height < y + 1 {
            self.max_height = y + 1;
        }
    }
}

/// The color of three percentages, each rounded to the nearest of 256 levels.
pub fn rgb_from_percent(r: usize, g: usize, b: usize) -> (color: RGB8)
    ensures
        color == percent_color(r, g, b),
{
    RGB8::new(percent_to_u8(r), percent_to_u8(g), percent_to_u8(b))
}

/// A percentage on the scale from 0 to 255, capped at a hundred percent.
pub fn percent_to_u8(v: usize) -> (level: u8)
    ensures
        level == percent_level(v),
{
    let capped: usize = if v < 100 {
        v
    } else {
        100
    };
    ((capped * 255 + 50) / 100) as u8
}

/// The VT340 default 16-color palette, with the remaining registers black.
/// Components are the DEC-documented percentages scaled to 0..=255.
pub fn default_palette() -> (palette: Vec<RGB8>)
    ensures
        palette@ == default_registers(),
{
    let mut palette: Vec<RGB8> = vec![RGB8::new(0, 0, 0); REGISTERS];
    let mut i: usize = 0;
    while i < 16
        invariant
            i <= 16,
            palette@.len() == REGISTERS,
            forall|k: int|
                0 <= k < REGISTERS ==> #[trigger] palette@[k] == if k < i {
                    default_color(k)
                } else {
                    (Rgb { r: 0u8, g: 0u8, b: 0u8 })
                },
        decreases 16 - i,
    {
        let (r, g, b): (usize, usize, usize) = VT340[i];
        palette[i] = rgb_from_percent(r, g, b);
        i += 1;
    }
    palette
}

} // verus!
