//! Reading the commands of a sixel data stream.

use vstd::prelude::*;

use crate::stream::{
    color_command, command_at, decimal, digits_end, lemma_digits_end, number_at, param_at,
    param_end, raster_command, repeat_command, Command,
};

verus! {

/// Parse an optional decimal number at `start`, returning its value (`0` when
/// absent) and the index of the first non-digit character.
pub fn parse_number(chars: &[char], start: usize) -> (parsed: (usize, usize))
    ensures
        parsed.0 == number_at(chars@, start as int),
        parsed.1 == digits_end(chars@, start as int),
{
    let mut value: usize = 0;
    let mut i: usize = start;
    proof {
        lemma_digits_end(chars@, start as int);
    }
    while i < chars.len() && '0' <= chars[i] && chars[i] <= '9'
        invariant
            start <= i,
            i > start ==> i <= chars@.len(),
            digits_end(chars@, i as int) == digits_end(chars@, start as int),
            i == start ==> value == 0,
            i > start ==> ({
                let read = decimal(chars@.subrange(start as int, i as int));
                value == if read <= usize::MAX { read } else { usize::MAX as nat }
            }),
        decreases chars.len() - i,
    {
        let digit: usize = chars[i] as usize - '0' as usize;
        proof {
            let read = chars@.subrange(start as int, i + 1);
            assert(read.drop_last() =~= chars@.subrange(start as int, i as int));
            assert(decimal(chars@.subrange(start as int, start as int)) == 0);
        }
        value = if value <= (usize::MAX - digit) / 10 {
            value * 10 + digit
        } else {
            usize::MAX
        };
        i += 1;
    }
    (value, i)
}

/// Parse a `;`-prefixed parameter, as used by the color and raster commands.
/// A missing separator or value yields `0` and leaves the index unchanged past
/// any consumed separator.
pub fn parse_param(chars: &[char], i: usize) -> (parsed: (usize, usize))
    ensures
        parsed.0 == param_at(chars@, i as int),
        parsed.1 == param_end(chars@, i as int),
{
    if i < chars.len() && chars[i] == ';' {
        parse_number(chars, i + 1)
    } else {
        (0, i)
    }
}

/// Read the command behind a `#`, and return it with the index behind it.
pub fn read_color(chars: &[char], start: usize) -> (read: (Command, usize))
    ensures
        read.0 == color_command(chars@, start as int).0,
        read.1 == color_command(chars@, start as int).1,
{
    let (register, e1): (usize, usize) = parse_number(chars, start);
    if e1 < chars.len() && chars[e1] == ';' {
        let (space, e2): (usize, usize) = parse_number(chars, e1 + 1);
        let (x, e3): (usize, usize) = parse_param(chars, e2);
        let (y, e4): (usize, usize) = parse_param(chars, e3);
        let (z, e5): (usize, usize) = parse_param(chars, e4);
        (Command::Define { register, space, x, y, z }, e5)
    } else {
        (Command::Select { register }, e1)
    }
}

/// Read the command behind a `"`, and return it with the index behind it.
pub fn read_raster(chars: &[char], start: usize) -> (read: (Command, usize))
    ensures
        read.0 == raster_command(chars@, start as int).0,
        read.1 == raster_command(chars@, start as int).1,
{
    let (_pan, e1): (usize, usize) = parse_number(chars, start);
    let (_pad, e2): (usize, usize) = parse_param(chars, e1);
    let (width, e3): (usize, usize) = parse_param(chars, e2);
    let (height, e4): (usize, usize) = parse_param(chars, e3);
    (Command::Raster { width, height }, e4)
}

/// Read the command behind a `!`, and return it with the index behind it.
pub fn read_repeat(chars: &[char], start: usize) -> (read: (Command, usize))
    ensures
        read.0 == repeat_command(chars@, start as int).0,
        read.1 == repeat_command(chars@, start as int).1,
{
    let (count, end): (usize, usize) = parse_number(chars, start);
    if end < chars.len() && '?' <= chars[end] && chars[end] <= '~' {
        let bits: u8 = chars[end] as u8 - 0x3f;
        (
            Command::Paint {
                bits,
                count: if count == 0 {
                    1
                } else {
                    count
                },
            },
            end + 1,
        )
    } else {
        (Command::Skip, end)
    }
}

/// Read the command at `i`, and return it with the index behind it.
pub fn read_command(chars: &[char], i: usize) -> (read: (Command, usize))
    requires
        i < chars@.len(),
    ensures
        read.0 == command_at(chars@, i as int).0,
        read.1 == command_at(chars@, i as int).1,
{
    let c: char = chars[i];
    if c == '#' {
        read_color(chars, i + 1)
    } else if c == '"' {
        read_raster(chars, i + 1)
    } else if c == '!' {
        read_repeat(chars, i + 1)
    } else if c == '$' {
        (Command::Return, i + 1)
    } else if c == '-' {
        (Command::NewLine, i + 1)
    } else if '?' <= c && c <= '~' {
        (Command::Paint { bits: c as u8 - 0x3f, count: 1 }, i + 1)
    } else {
        // Whitespace and any unrecognized control characters are ignored,
        // matching how real decoders skip stream padding.
        (Command::Skip, i + 1)
    }
}

} // verus!
