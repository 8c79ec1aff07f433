//! Terminal emulation.
//!
//! [`Terminal`] wraps avt's [`Vt`], which interprets the recorded character
//! stream into a grid of text cells. A [`Snapshot`] captures the visible lines,
//! cursor, and placed images at a point in time; the renderer turns a snapshot
//! into pixels.

use avt::{Cell, Line, Vt};
use rgb::RGBA8;
use vstd::prelude::*;

use crate::pixel::same_pixel;
use crate::sixel::Image;

verus! {

/// `avt::Vt`, a virtual terminal.
#[verifier::external_type_specification]
#[verifier::external_body]
pub struct ExVt(Vt);

/// `avt::Line`, one line of text cells.
#[verifier::external_type_specification]
#[verifier::external_body]
pub struct ExLine(Line);

/// `avt::Cell`, one cell of a line.
#[verifier::external_type_specification]
#[verifier::external_body]
pub struct ExCell(Cell);

/// What a virtual terminal was built with: its columns, its rows, and the lines
/// of scrollback that it keeps.
pub uninterp spec fn vt_setup(vt: Vt) -> (usize, usize, usize);

/// What a virtual terminal has been fed since it was built, one string for each
/// call.
pub uninterp spec fn vt_fed(vt: Vt) -> Seq<Seq<char>>;

/// All that tells one line of text cells from another: its cells, with their
/// characters, widths and pens, and whether it wraps into the next line.
pub uninterp spec fn line_contents(line: Line) -> Seq<int>;

/// The visible lines, from top to bottom, of a virtual terminal that was built
/// with `setup` and has been fed `fed`.
pub uninterp spec fn screen_lines(setup: (usize, usize, usize), fed: Seq<Seq<char>>) -> Seq<
    Seq<int>,
>;

/// The column and row of the cursor, if it is visible, of a virtual terminal
/// that was built with `setup` and has been fed `fed`.
pub uninterp spec fn screen_cursor(setup: (usize, usize, usize), fed: Seq<Seq<char>>) -> Option<
    (usize, usize),
>;

/// Whether a virtual terminal of this size can be built: it has a row, and not
/// more columns and rows than the machine can address, taking 64 bytes as the
/// most that a cell or the header of a line takes up.
pub open spec fn buildable(cols: usize, rows: usize) -> bool {
    &&& cols <= isize::MAX / 64
    &&& 0 < rows <= isize::MAX / 64
}

/// Builds a virtual terminal with avt's `Vt::builder`, `Builder::size`,
/// `Builder::scrollback_limit` and `Builder::build`, which keep the size and
/// the limit they are given and have fed the terminal nothing. Without a row
/// avt panics.
#[verifier::external_body]
fn build_vt(cols: usize, rows: usize, scrollback_limit: usize) -> (vt: Vt)
    requires
        buildable(cols, rows),
        scrollback_limit <= isize::MAX / 64,
    ensures
        vt_setup(vt) == (cols, rows, scrollback_limit),
        vt_fed(vt) == Seq::<Seq<char>>::empty(),
{
    Vt::builder().size(cols, rows).scrollback_limit(scrollback_limit).build()
}

/// Feeds a string with avt's `Vt::feed_str`, which takes in its characters in
/// order. The lines that leave the scrollback are dropped. Without a column to
/// print in avt panics on some characters.
#[verifier::external_body]
fn feed_vt(vt: &mut Vt, data: &str)
    requires
        vt_setup(*old(vt)).0 > 0 || data@.len() == 0,
    ensures
        vt_setup(*final(vt)) == vt_setup(*old(vt)),
        vt_fed(*final(vt)) == vt_fed(*old(vt)).push(data@),
{
    vt.feed_str(data);
}

/// The visible lines that avt's `Vt::view` walks over, from top to bottom: as
/// many as the terminal has rows. They depend on nothing but what the terminal
/// was built with and has been fed.
#[verifier::external_body]
fn view_vt(vt: &Vt) -> (lines: Vec<Line>)
    ensures
        lines@.map_values(|line: Line| line_contents(line)) == screen_lines(
            vt_setup(*vt),
            vt_fed(*vt),
        ),
        lines@.len() == vt_setup(*vt).1,
{
    vt.view().cloned().collect()
}

/// The cursor of avt's `Vt::cursor`, which is a column and a row if the cursor
/// is visible. It depends on nothing but what the terminal was built with and
/// has been fed.
#[verifier::external_body]
fn cursor_vt(vt: &Vt) -> (cursor: Option<(usize, usize)>)
    ensures
        cursor == screen_cursor(vt_setup(*vt), vt_fed(*vt)),
{
    vt.cursor().into()
}

/// The derived `==` of `avt::Line`, which compares the cells and the wrap flag.
#[verifier::external_body]
fn same_line(a: &Line, b: &Line) -> (same: bool)
    ensures
        same == (line_contents(*a) == line_contents(*b)),
{
    a == b
}

/// The derived `clone` of `avt::Line` copies the cells and the wrap flag.
pub assume_specification[ <Line as Clone>::clone ](line: &Line) -> (copy: Line)
    ensures
        line_contents(copy) == line_contents(*line),
;

/// An image on the text grid, anchored by its top left cell.
#[derive(Debug, PartialEq)]
pub struct PlacedImage {
    pub col: usize,
    pub row: usize,
    pub image: Image,
}

impl Clone for PlacedImage {
    fn clone(&self) -> (copy: Self)
        ensures
            copy.alike(self),
    {
        PlacedImage { col: self.col, row: self.row, image: self.image.clone() }
    }
}

impl PlacedImage {
    /// The pixels of the image, row by row.
    pub fn pixels(&self) -> (pixels: &[RGBA8])
        ensures
            pixels@ == self.image.pixels@,
    {
        self.image.pixels.as_slice()
    }

    /// Whether two images show the same pixels in the same place.
    pub open spec fn alike(&self, other: &PlacedImage) -> bool {
        &&& self.col == other.col
        &&& self.row == other.row
        &&& self.image.width == other.image.width
        &&& self.image.height == other.image.height
        &&& self.image.pixels@ == other.image.pixels@
    }

    /// Whether two images show the same pixels in the same place.
    pub fn same_image(&self, other: &PlacedImage) -> (same: bool)
        ensures
            same == self.alike(other),
    {
        if self.col != other.col || self.row != other.row || self.image.width != other.image.width
            || self.image.height != other.image.height || self.image.pixels.len()
            != other.image.pixels.len() {
            return false;
        }
        let mut i: usize = 0;
        while i < self.image.pixels.len()
            invariant
                i <= self.image.pixels@.len() == other.image.pixels@.len(),
                forall|k: int| 0 <= k < i ==> self.image.pixels@[k] == other.image.pixels@[k],
            decreases self.image.pixels.len() - i,
        {
            if !same_pixel(self.image.pixels[i], other.image.pixels[i]) {
                return false;
            }
            i += 1;
        }
        assert(self.image.pixels@ =~= other.image.pixels@);
        true
    }
}

/// A terminal that keeps no scrollback.
pub struct Terminal {
    vt: Vt,
}

/// A terminal of the given columns and rows.
pub fn build(terminal_size: (usize, usize)) -> (terminal: Terminal)
    requires
        buildable(terminal_size.0, terminal_size.1),
    ensures
        terminal.wf(),
        terminal.size() == terminal_size,
        terminal.fed() == Seq::<Seq<char>>::empty(),
        vt_setup(terminal.inner()) == (terminal_size.0, terminal_size.1, 0usize),
        vt_fed(terminal.inner()) == Seq::<Seq<char>>::empty(),
{
    Terminal::new(terminal_size)
}

impl Terminal {
    /// The virtual terminal inside.
    pub closed spec fn inner(&self) -> Vt {
        self.vt
    }

    /// The columns and rows of the terminal.
    pub open spec fn size(&self) -> (usize, usize) {
        (vt_setup(self.inner()).0, vt_setup(self.inner()).1)
    }

    /// What the terminal has been fed, one string for each call.
    pub open spec fn fed(&self) -> Seq<Seq<char>> {
        vt_fed(self.inner())
    }

    /// Whether the terminal keeps no scrollback.
    pub open spec fn wf(&self) -> bool {
        vt_setup(self.inner()) == (self.size().0, self.size().1, 0usize)
    }

    /// A terminal of the given columns and rows.
    pub fn new(terminal_size: (usize, usize)) -> (terminal: Self)
        requires
            buildable(terminal_size.0, terminal_size.1),
        ensures
            terminal.wf(),
            terminal.size() == terminal_size,
            terminal.fed() == Seq::<Seq<char>>::empty(),
            vt_setup(terminal.inner()) == (terminal_size.0, terminal_size.1, 0usize),
            vt_fed(terminal.inner()) == Seq::<Seq<char>>::empty(),
    {
        Terminal { vt: build_vt(terminal_size.0, terminal_size.1, 0) }
    }

    /// Let the terminal take in a string of text and control sequences.
    pub fn feed_str(&mut self, data: &str)
        requires
            old(self).wf(),
            old(self).size().0 > 0 || data@.len() == 0,
        ensures
            final(self).wf(),
            final(self).size() == old(self).size(),
            final(self).fed() == old(self).fed().push(data@),
            vt_setup(final(self).inner()) == vt_setup(old(self).inner()),
            vt_fed(final(self).inner()) == vt_fed(old(self).inner()).push(data@),
    {
        feed_vt(&mut self.vt, data);
    }

    /// The virtual terminal inside, for the images that it has placed.
    pub fn vt(&self) -> (vt: &Vt)
        ensures
            *vt == self.inner(),
    {
        &self.vt
    }

    /// What the terminal shows now, with the images that are placed on it.
    pub fn snapshot(&self, images: Vec<PlacedImage>) -> (snapshot: Snapshot)
        requires
            self.wf(),
        ensures
            snapshot.captures(self.size(), self.fed()),
            snapshot.lines@.map_values(|line: Line| line_contents(line)) == screen_lines(
                vt_setup(self.inner()),
                vt_fed(self.inner()),
            ),
            snapshot.cursor == screen_cursor(vt_setup(self.inner()), vt_fed(self.inner())),
            snapshot.images == images,
    {
        Snapshot { lines: view_vt(&self.vt), cursor: cursor_vt(&self.vt), images }
    }
}

/// A terminal state at a point in time: text cells, the cursor, and any sixel
/// images placed in the active buffer.
pub struct Snapshot {
    pub lines: Vec<Line>,
    pub cursor: Option<(usize, usize)>,
    pub images: Vec<PlacedImage>,
}

impl Clone for Snapshot {
    fn clone(&self) -> (copy: Self)
        ensures
            copy.looks_like(self),
    {
        let copy = Snapshot {
            lines: self.lines.clone(),
            cursor: self.cursor,
            images: self.images.clone(),
        };
        assert(copy.line_contents() =~= self.line_contents()) by {
            assert forall|k: int| 0 <= k < self.lines@.len() implies copy.line_contents()[k]
                == self.line_contents()[k] by {
                assert(cloned(self.lines@[k], copy.lines@[k]));
            }
        }
        assert forall|k: int| 0 <= k < self.images@.len() implies (
        #[trigger] copy.images@[k]).alike(&self.images@[k]) by {
            assert(cloned(self.images@[k], copy.images@[k]));
        }
        copy
    }
}

impl Snapshot {
    /// What the lines hold, from top to bottom.
    pub open spec fn line_contents(&self) -> Seq<Seq<int>> {
        self.lines@.map_values(|line: Line| line_contents(line))
    }

    /// Whether the lines and the cursor are those of a terminal of the given
    /// columns and rows that has been fed `fed`.
    pub open spec fn captures(&self, size: (usize, usize), fed: Seq<Seq<char>>) -> bool {
        &&& self.line_contents() == screen_lines((size.0, size.1, 0), fed)
        &&& self.lines@.len() == size.1
        &&& self.cursor == screen_cursor((size.0, size.1, 0), fed)
    }

    /// Whether two snapshots place the same images in the same order.
    pub open spec fn images_alike(&self, other: &Snapshot) -> bool {
        &&& self.images@.len() == other.images@.len()
        &&& forall|k: int|
            0 <= k < self.images@.len() ==> (#[trigger] self.images@[k]).alike(&other.images@[k])
    }

    /// Whether two snapshots look the same.
    pub open spec fn looks_like(&self, other: &Snapshot) -> bool {
        &&& self.line_contents() == other.line_contents()
        &&& self.cursor == other.cursor
        &&& self.images_alike(other)
    }

    /// Whether two snapshots look the same: the same text cells, the cursor in
    /// the same place or hidden in both, and the same images.
    pub fn same_visual(&self, other: &Snapshot) -> (same: bool)
        ensures
            same == self.looks_like(other),
    {
        self.same_lines(other) && self.same_cursor(other) && self.same_images(other)
    }

    fn same_lines(&self, other: &Snapshot) -> (same: bool)
        ensures
            same == (self.line_contents() == other.line_contents()),
    {
        if self.lines.len() != other.lines.len() {
            assert(self.line_contents().len() != other.line_contents().len());
            return false;
        }
        let mut i: usize = 0;
        while i < self.lines.len()
            invariant
                i <= self.lines@.len() == other.lines@.len(),
                forall|k: int|
                    0 <= k < i ==> self.line_contents()[k] == other.line_contents()[k],
            decreases self.lines.len() - i,
        {
            if !same_line(&self.lines[i], &other.lines[i]) {
                assert(self.line_contents()[i as int] != other.line_contents()[i as int]);
                return false;
            }
            i += 1;
        }
        assert(self.line_contents() =~= other.line_contents());
        true
    }

    fn same_cursor(&self, other: &Snapshot) -> (same: bool)
        ensures
            same == (self.cursor == other.cursor),
    {
        match (self.cursor, other.cursor) {
            (Some(a), Some(b)) => a.0 == b.0 && a.1 == b.1,
            (None, None) => true,
            _ => false,
        }
    }

    fn same_images(&self, other: &Snapshot) -> (same: bool)
        ensures
            same == self.images_alike(other),
    {
        if self.images.len() != other.images.len() {
            return false;
        }
        let mut i: usize = 0;
        while i < self.images.len()
            invariant
                i <= self.images@.len() == other.images@.len(),
                forall|k: int|
                    0 <= k < i ==> (#[trigger] self.images@[k]).alike(&other.images@[k]),
            decreases self.images.len() - i,
        {
            if !self.images[i].same_image(&other.images[i]) {
                return false;
            }
            i += 1;
        }
        true
    }
}

/// Looking the same is an equivalence: a snapshot looks like itself, and two
/// snapshots that look like a third look like each other.
pub proof fn law_looking_the_same(a: Snapshot, b: Snapshot, c: Snapshot)
    ensures
        a.looks_like(&a),
        a.looks_like(&b) ==> b.looks_like(&a),
        a.looks_like(&b) && b.looks_like(&c) ==> a.looks_like(&c),
{
    if a.looks_like(&b) {
        assert forall|k: int| 0 <= k < b.images@.len() implies (#[trigger] b.images@[k]).alike(
            &a.images@[k],
        ) by {
            assert(a.images@[k].alike(&b.images@[k]));
        }
        if b.looks_like(&c) {
            assert forall|k: int| 0 <= k < a.images@.len() implies (#[trigger] a.images@[k]).alike(
                &c.images@[k],
            ) by {
                assert(b.images@[k].alike(&c.images@[k]));
            }
        }
    }
}

/// Two terminals of one size that were fed the same strings look the same, with
/// the same images on them.
pub proof fn law_same_input_looks_the_same(
    a: Snapshot,
    b: Snapshot,
    size: (usize, usize),
    fed: Seq<Seq<char>>,
)
    requires
        a.captures(size, fed),
        b.captures(size, fed),
        a.images_alike(&b),
    ensures
        a.looks_like(&b),
{
}

/// Everything that an image shows: its place, its size, and the four channels of
/// each of its pixels.
pub open spec fn shown_image(placed: PlacedImage) -> (
    usize,
    usize,
    usize,
    usize,
    Seq<(u8, u8, u8, u8)>,
) {
    (
        placed.col,
        placed.row,
        placed.image.width,
        placed.image.height,
        Seq::new(
            placed.image.pixels@.len(),
            |k: int|
                (
                    placed.image.pixels@[k].r,
                    placed.image.pixels@[k].g,
                    placed.image.pixels@[k].b,
                    placed.image.pixels@[k].a,
                ),
        ),
    )
}

/// Two images are alike just if they show the same.
pub proof fn law_alike_images_show_the_same(a: PlacedImage, b: PlacedImage)
    ensures
        a.alike(&b) <==> shown_image(a) == shown_image(b),
{
    if shown_image(a) == shown_image(b) {
        let (p, q) = (shown_image(a).4, shown_image(b).4);
        assert(p.len() == q.len());
        assert forall|k: int| 0 <= k < a.image.pixels@.len() implies a.image.pixels@[k]
            == b.image.pixels@[k] by {
            assert(p[k] == q[k]);
        }
        assert(a.image.pixels@ =~= b.image.pixels@);
    }
    if a.alike(&b) {
        assert(shown_image(a).4 =~= shown_image(b).4);
    }
}

/// Two snapshots look the same just if all that they show is equal: each line's
/// contents, the cursor, and each image with its place, its size and all four
/// channels of its pixels.
pub proof fn law_looking_the_same_is_showing_the_same(a: Snapshot, b: Snapshot)
    ensures
        a.looks_like(&b) <==> {
            &&& a.lines@.len() == b.lines@.len()
            &&& forall|k: int|
                0 <= k < a.lines@.len() ==> line_contents(#[trigger] a.lines@[k]) == line_contents(
                    b.lines@[k],
                )
            &&& a.cursor == b.cursor
            &&& a.images@.len() == b.images@.len()
            &&& forall|k: int|
                0 <= k < a.images@.len() ==> shown_image(#[trigger] a.images@[k]) == shown_image(
                    b.images@[k],
                )
        },
{
    assert forall|k: int| 0 <= k < a.images@.len() && k < b.images@.len() implies (
    #[trigger] a.images@[k].alike(&b.images@[k]) <==> shown_image(a.images@[k]) == shown_image(
        b.images@[k],
    )) by {
        law_alike_images_show_the_same(a.images@[k], b.images@[k]);
    }
    if a.looks_like(&b) {
        assert(a.line_contents().len() == b.line_contents().len());
        assert forall|k: int| 0 <= k < a.lines@.len() implies line_contents(
            #[trigger] a.lines@[k],
        ) == line_contents(b.lines@[k]) by {
            assert(a.line_contents()[k] == b.line_contents()[k]);
        }
        assert forall|k: int| 0 <= k < a.images@.len() implies shown_image(
            #[trigger] a.images@[k],
        ) == shown_image(b.images@[k]) by {
            assert(a.images@[k].alike(&b.images@[k]));
        }
    } else if a.lines@.len() == b.lines@.len() && (forall|k: int|
        0 <= k < a.lines@.len() ==> line_contents(#[trigger] a.lines@[k]) == line_contents(
            b.lines@[k],
        )) {
        assert(a.line_contents() =~= b.line_contents());
        assert(a.images@.len() == b.images@.len() && (forall|k: int|
            0 <= k < a.images@.len() ==> shown_image(#[trigger] a.images@[k]) == shown_image(
                b.images@[k],
            )) ==> a.images_alike(&b));
    }
}

/// A snapshot captures a terminal just if its lines hold what the screen's lines
/// hold, one for each row, and its cursor is the screen's, where the terminal
/// keeps no scrollback.
pub proof fn law_captured_is_what_the_screen_shows(
    snapshot: Snapshot,
    size: (usize, usize),
    fed: Seq<Seq<char>>,
)
    ensures
        snapshot.captures(size, fed) <==> {
            &&& snapshot.lines@.len() == size.1
            &&& screen_lines((size.0, size.1, 0), fed).len() == size.1
            &&& forall|k: int|
                0 <= k < size.1 ==> line_contents(#[trigger] snapshot.lines@[k]) == screen_lines(
                    (size.0, size.1, 0),
                    fed,
                )[k]
            &&& snapshot.cursor == screen_cursor((size.0, size.1, 0), fed)
        },
{
    let held = snapshot.line_contents();
    let screen = screen_lines((size.0, size.1, 0), fed);
    assert(forall|k: int|
        0 <= k < snapshot.lines@.len() ==> held[k] == line_contents(#[trigger] snapshot.lines@[k]));
    if snapshot.lines@.len() == size.1 && screen.len() == size.1 && (forall|k: int|
        0 <= k < size.1 ==> line_contents(#[trigger] snapshot.lines@[k]) == screen[k]) {
        assert forall|k: int| 0 <= k < held.len() implies held[k] == screen[k] by {
            assert(line_contents(snapshot.lines@[k]) == screen[k]);
        }
        assert(held =~= screen);
    }
}

/// A terminal's size is the columns and rows that its virtual terminal was built
/// with, it keeps no line of scrollback, and what it has been fed is what its
/// virtual terminal has been fed. Any size with a row can be built that the
/// machine can address.
pub proof fn law_terminal_is_its_virtual_terminal(terminal: Terminal, cols: usize, rows: usize)
    ensures
        terminal.size().0 == vt_setup(terminal.inner()).0,
        terminal.size().1 == vt_setup(terminal.inner()).1,
        terminal.wf() <==> vt_setup(terminal.inner()).2 == 0,
        terminal.fed() == vt_fed(terminal.inner()),
        0 < rows && 64 * rows <= isize::MAX && 64 * cols <= isize::MAX ==> buildable(cols, rows),
{
}

} // verus!
