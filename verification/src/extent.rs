//! How large the image of a sixel stream is, found out without painting it.

use vstd::prelude::*;

use crate::picture::{
    body_fits, layout_of, lemma_layout_after_concat, lemma_layout_grows, Layout,
};
use crate::reader::read_command;
use crate::sixel::sixel_data;
use crate::stream::{commands, commands_from, lemma_command_end, Command};

verus! {

/// Whether the machine can hold the image that a body describes. A stream of a
/// few characters can declare, or repeat its way to, an image that no buffer
/// holds; this tells so without painting it.
pub fn fits(body: &str) -> (fit: bool)
    ensures
        fit == body_fits(body@),
{
    match sixel_data(body) {
        None => true,
        Some(chars) => extents_fit(chars.as_slice()),
    }
}

/// Whether the picture of a sixel data stream fits the machine.
fn extents_fit(chars: &[char]) -> (fit: bool)
    ensures
        fit == layout_of(chars@).fits(),
{
    let mut x: usize = 0;
    let mut band: usize = 0;
    let mut max_width: usize = 0;
    let mut max_height: usize = 0;
    let mut declared_width: usize = 0;
    let mut declared_height: usize = 0;
    let ghost mut layout = Layout::initial();
    let ghost mut done: Seq<Command> = Seq::empty();
    let mut i: usize = 0;
    while i < chars.len()
        invariant
            i <= chars@.len(),
            done + commands_from(chars@, i as int) =~= commands(chars@),
            layout == Layout::initial().after(done),
            layout == (Layout {
                x: x as nat,
                band: band as nat,
                reached_width: max_width as nat,
                reached_height: max_height as nat,
                declared_width: declared_width as nat,
                declared_height: declared_height as nat,
                ..layout
            }),
        decreases chars.len() - i,
    {
        let (command, next): (Command, usize) = read_command(chars, i);
        proof {
            lemma_command_end(chars@, i as int);
            let rest = commands_from(chars@, next as int);
            assert(commands(chars@) =~= done.push(command) + rest);
            assert(done.push(command).drop_last() =~= done);
            lemma_layout_after_concat(Layout::initial(), done.push(command), rest);
            lemma_layout_grows(layout.step(command), rest);
            layout = layout.step(command);
            done = done.push(command);
        }
        match command {
            Command::Raster { width, height } => {
                if declared_width < width {
                    declared_width = width;
                }
                if declared_height < height {
                    declared_height = height;
                }
            },
            Command::Paint { bits: _, count } => {
                if count > usize::MAX - x || band > usize::MAX - 6 {
                    return false;
                }
                x += count;
                if max_width < x {
                    max_width = x;
                }
                if max_height < band + 6 {
                    max_height = band + 6;
                }
            },
            Command::Return => {
                x = 0;
            },
            Command::NewLine => {
                if band > usize::MAX - 6 {
                    return false;
                }
                x = 0;
                band += 6;
            },
            _ => {},
        }
        i = next;
    }
    assert(done =~= commands(chars@));
    let width: usize = if max_width < declared_width {
        declared_width
    } else {
        max_width
    };
    let height: usize = if max_height < declared_height {
        declared_height
    } else {
        max_height
    };
    let most: usize = isize::MAX as usize / 4;
    proof {
        lemma_area(width as int, height as int, most as int);
    }
    width == 0 || height <= most / width
}

/// A product is at most `most` just if one factor is at most the quotient of
/// `most` by the other.
proof fn lemma_area(width: int, height: int, most: int)
    requires
        0 <= width,
        0 <= height,
        0 <= most,
    ensures
        width == 0 ==> width * height == 0,
        width > 0 ==> (width * height <= most <==> height <= most / width),
{
    if width > 0 {
        assert(width * height <= most <==> height <= most / width) by (nonlinear_arith)
            requires
                width > 0,
                height >= 0,
                most >= 0,
        ;
    }
}

} // verus!
