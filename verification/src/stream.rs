//! The grammar of a sixel data stream: numbers, parameters and commands.

use vstd::prelude::*;

verus! {

/// Whether `c` is a decimal digit.
pub open spec fn is_digit(c: char) -> bool {
    '0' <= c <= '9'
}

/// The value of the decimal digit `c`.
pub open spec fn digit_value(c: char) -> nat {
    (c as int - '0' as int) as nat
}

/// The value of a string of decimal digits, `0` for the empty one.
pub open spec fn decimal(digits: Seq<char>) -> nat
    decreases digits.len(),
{
    if digits.len() == 0 {
        0
    } else {
        10 * decimal(digits.drop_last()) + digit_value(digits.last())
    }
}

/// The index of the first character at or after `i` that is no digit.
pub open spec fn digits_end(chars: Seq<char>, i: int) -> int
    decreases chars.len() - i,
{
    if 0 <= i < chars.len() && is_digit(chars[i]) {
        digits_end(chars, i + 1)
    } else {
        i
    }
}

/// The number written in the digits that begin at `i`, or the largest number
/// that the machine holds where it is larger, or `0` where there are none.
pub open spec fn number_at(chars: Seq<char>, i: int) -> usize {
    let end = digits_end(chars, i);
    let value = if i < end {
        decimal(chars.subrange(i, end))
    } else {
        0
    };
    if value <= usize::MAX {
        value as usize
    } else {
        usize::MAX
    }
}

/// Whether a parameter separator stands at `i`.
pub open spec fn separator_at(chars: Seq<char>, i: int) -> bool {
    0 <= i < chars.len() && chars[i] == ';'
}

/// The parameter at `i`: the number behind a separator, or `0` without one.
pub open spec fn param_at(chars: Seq<char>, i: int) -> usize {
    if separator_at(chars, i) {
        number_at(chars, i + 1)
    } else {
        0
    }
}

/// The index behind the parameter at `i`.
pub open spec fn param_end(chars: Seq<char>, i: int) -> int {
    if separator_at(chars, i) {
        digits_end(chars, i + 1)
    } else {
        i
    }
}

/// Whether `c` is a sixel data character, one column of six pixels.
pub open spec fn is_sixel(c: char) -> bool {
    '?' <= c <= '~'
}

/// The six bits of a sixel data character, the least significant one on top.
pub open spec fn sixel_bits(c: char) -> u8 {
    (c as int - '?' as int) as u8
}

/// One command of a sixel data stream.
#[derive(Debug, Clone, Copy, PartialEq, Eq, Structural)]
pub enum Command {
    /// `#Pc`: paint with the color of a register.
    Select { register: usize },
    /// `#Pc;Pu;Px;Py;Pz`: set a register and paint with its color.
    Define { register: usize, space: usize, x: usize, y: usize, z: usize },
    /// `"Pan;Pad;Ph;Pv`: declare the size of the canvas.
    Raster { width: usize, height: usize },
    /// A data character, or `!Pn` and a data character: paint `count` columns.
    Paint { bits: u8, count: usize },
    /// `$`: go back to the first column of the band.
    Return,
    /// `-`: go to the first column of the band below.
    NewLine,
    /// Anything else, which stands for nothing.
    Skip,
}

/// The command behind the `#` at `i - 1`, and the index behind it.
pub open spec fn color_command(chars: Seq<char>, i: int) -> (Command, int) {
    let register = number_at(chars, i);
    let e1 = digits_end(chars, i);
    if separator_at(chars, e1) {
        let e2 = digits_end(chars, e1 + 1);
        let e3 = param_end(chars, e2);
        let e4 = param_end(chars, e3);
        (
            Command::Define {
                register,
                space: number_at(chars, e1 + 1),
                x: param_at(chars, e2),
                y: param_at(chars, e3),
                z: param_at(chars, e4),
            },
            param_end(chars, e4),
        )
    } else {
        (Command::Select { register }, e1)
    }
}

/// The command behind the `"` at `i - 1`, and the index behind it. The first
/// two numbers give the pixel aspect ratio, which has no effect.
pub open spec fn raster_command(chars: Seq<char>, i: int) -> (Command, int) {
    let e1 = digits_end(chars, i);
    let e2 = param_end(chars, e1);
    let e3 = param_end(chars, e2);
    (
        Command::Raster { width: param_at(chars, e2), height: param_at(chars, e3) },
        param_end(chars, e3),
    )
}

/// The command behind the `!` at `i - 1`, and the index behind it. A count of
/// zero is read as one; a count that no data character follows is dropped.
pub open spec fn repeat_command(chars: Seq<char>, i: int) -> (Command, int) {
    let count = number_at(chars, i);
    let end = digits_end(chars, i);
    if 0 <= end < chars.len() && is_sixel(chars[end]) {
        (
            Command::Paint {
                bits: sixel_bits(chars[end]),
                count: if count == 0 { 1 } else { count },
            },
            end + 1,
        )
    } else {
        (Command::Skip, end)
    }
}

/// The command at `i`, and the index behind it.
pub open spec fn command_at(chars: Seq<char>, i: int) -> (Command, int) {
    let c = chars[i];
    if c == '#' {
        color_command(chars, i + 1)
    } else if c == '"' {
        raster_command(chars, i + 1)
    } else if c == '!' {
        repeat_command(chars, i + 1)
    } else if c == '$' {
        (Command::Return, i + 1)
    } else if c == '-' {
        (Command::NewLine, i + 1)
    } else if is_sixel(c) {
        (Command::Paint { bits: sixel_bits(c), count: 1 }, i + 1)
    } else {
        (Command::Skip, i + 1)
    }
}

/// The commands from index `i` of a stream to its end.
pub open spec fn commands_from(chars: Seq<char>, i: int) -> Seq<Command>
    decreases chars.len() - i,
{
    if 0 <= i < chars.len() {
        proof {
            lemma_command_end(chars, i);
        }
        let (command, next) = command_at(chars, i);
        seq![command] + commands_from(chars, next)
    } else {
        Seq::empty()
    }
}

/// The commands of a stream.
pub open spec fn commands(chars: Seq<char>) -> Seq<Command> {
    commands_from(chars, 0)
}

/// The sixel data of the body of a device control string: what follows the
/// first `q`, which closes the macro parameters.
pub open spec fn data(body: Seq<char>) -> Option<Seq<char>>
    decreases body.len(),
{
    if body.len() == 0 {
        None
    } else if body.first() == 'q' {
        Some(body.drop_first())
    } else {
        data(body.drop_first())
    }
}

/// A parameter ends at or after the index it begins at, inside the stream.
pub proof fn lemma_param_end(chars: Seq<char>, i: int)
    requires
        0 <= i <= chars.len(),
    ensures
        i <= param_end(chars, i) <= chars.len(),
{
    lemma_digits_end(chars, i + 1);
}

/// A command takes at least one character and ends inside the stream.
pub proof fn lemma_command_end(chars: Seq<char>, i: int)
    requires
        0 <= i < chars.len(),
    ensures
        i < command_at(chars, i).1 <= chars.len(),
{
    lemma_digits_end(chars, i + 1);
    let e1 = digits_end(chars, i + 1);
    lemma_param_end(chars, e1);
    let f2 = param_end(chars, e1);
    lemma_param_end(chars, f2);
    lemma_param_end(chars, param_end(chars, f2));
    if separator_at(chars, e1) {
        lemma_digits_end(chars, e1 + 1);
        let e2 = digits_end(chars, e1 + 1);
        lemma_param_end(chars, e2);
        let e3 = param_end(chars, e2);
        lemma_param_end(chars, e3);
        lemma_param_end(chars, param_end(chars, e3));
    }
}

/// The digits from `i` end at or after `i`, inside the stream if `i` is.
pub proof fn lemma_digits_end(chars: Seq<char>, i: int)
    ensures
        i <= digits_end(chars, i),
        i <= chars.len() ==> digits_end(chars, i) <= chars.len(),
        0 <= i ==> (forall|k: int| i <= k < digits_end(chars, i) ==> is_digit(#[trigger] chars[k])),
        ({
            let end = digits_end(chars, i);
            0 <= end < chars.len() ==> !is_digit(chars[end])
        }),
    decreases chars.len() - i,
{
    if 0 <= i < chars.len() && is_digit(chars[i]) {
        lemma_digits_end(chars, i + 1);
    }
}

} // verus!
