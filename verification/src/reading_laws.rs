//! What the characters of a sixel data stream say, told by the characters
//! themselves.

use vstd::prelude::*;

use crate::stream::{
    color_command, command_at, commands, commands_from, data, decimal, digits_end,
    lemma_command_end, number_at, param_at, param_end, raster_command, repeat_command,
    separator_at, Command,
};

verus! {

/// The digits of a number in base ten, the most significant one first.
pub open spec fn numeral(n: nat) -> Seq<char>
    decreases n,
{
    let last = (48 + n % 10) as char;
    if n < 10 {
        seq![last]
    } else {
        numeral(n / 10).push(last)
    }
}

/// Digits count in base ten: those in front weigh ten times as much for each
/// digit behind them, and one digit alone is worth its distance from `0`.
pub proof fn law_digits_weigh_in_base_ten(front: Seq<char>, back: Seq<char>, c: char)
    ensures
        decimal(front + back) == decimal(front) * vstd::arithmetic::power::pow(10, back.len())
            + decimal(back),
        '0' <= c <= '9' ==> decimal(seq![c]) == c as int - '0' as int,
        '0' <= c <= '9' ==> decimal(front.push(c)) == 10 * decimal(front) + (c as int - '0' as int),
        decimal(Seq::empty()) == 0,
    decreases back.len(),
{
    assert(seq![c].drop_last() =~= Seq::<char>::empty());
    assert(decimal(seq![c].drop_last()) == 0);
    assert(front.push(c).drop_last() =~= front);
    reveal(vstd::arithmetic::power::pow);
    if back.len() == 0 {
        assert(front + back =~= front);
        assert(vstd::arithmetic::power::pow(10, 0) == 1);
    } else {
        let init = back.drop_last();
        law_digits_weigh_in_base_ten(front, init, c);
        assert((front + back).drop_last() =~= front + init);
        assert((front + back).last() == back.last());
        let p = vstd::arithmetic::power::pow(10, init.len());
        assert(vstd::arithmetic::power::pow(10, back.len()) == 10 * p);
        let d = decimal(front);
        assert(10 * (d * p) == d * (10 * p)) by (nonlinear_arith);
    }
}

/// A number that is written down in base ten reads back as itself.
pub proof fn law_written_number_reads_back(n: nat)
    ensures
        decimal(numeral(n)) == n,
        numeral(n).len() > 0,
        forall|k: int| 0 <= k < numeral(n).len() ==> '0' <= #[trigger] numeral(n)[k] <= '9',
    decreases n,
{
    let last = (48 + n % 10) as char;
    assert(last as int == 48 + n % 10);
    if n < 10 {
        law_digits_weigh_in_base_ten(Seq::empty(), Seq::empty(), last);
    } else {
        law_written_number_reads_back(n / 10);
        law_digits_weigh_in_base_ten(numeral(n / 10), Seq::empty(), last);
    }
}

/// Whether the characters from `a` up to `b` are digits.
pub open spec fn digits_between(chars: Seq<char>, a: int, b: int) -> bool {
    &&& 0 <= a <= b
    &&& a < b ==> b <= chars.len()
    &&& forall|k: int| a <= k < b ==> '0' <= #[trigger] chars[k] <= '9'
}

/// Whether `c` stands at `i`.
pub open spec fn stands_at(chars: Seq<char>, i: int, c: char) -> bool {
    0 <= i < chars.len() && chars[i] == c
}

/// Whether a digit stands at `i`.
pub open spec fn digit_stands_at(chars: Seq<char>, i: int) -> bool {
    0 <= i < chars.len() && '0' <= chars[i] <= '9'
}

/// What the digits from `a` up to `b` are worth, up to the largest number that
/// the machine holds; nothing where there are none.
pub open spec fn worth(chars: Seq<char>, a: int, b: int) -> usize {
    if a >= b {
        0
    } else if decimal(chars.subrange(a, b)) > usize::MAX {
        usize::MAX
    } else {
        decimal(chars.subrange(a, b)) as usize
    }
}

/// A number takes all the digits that stand there, and no other character.
pub proof fn law_number_takes_all_digits(chars: Seq<char>, a: int, b: int)
    requires
        digits_between(chars, a, b),
        !digit_stands_at(chars, b),
    ensures
        digits_end(chars, a) == b,
        number_at(chars, a) == worth(chars, a, b),
    decreases b - a,
{
    if a < b {
        assert('0' <= chars[a] <= '9');
        law_number_takes_all_digits(chars, a + 1, b);
    }
}

/// A parameter is the number behind a `;`, and zero where there is no `;` or no
/// digit behind it.
pub proof fn law_parameter_stands_behind_separator(chars: Seq<char>, a: int, b: int)
    requires
        0 <= a,
        stands_at(chars, a, ';') ==> digits_between(chars, a + 1, b) && !digit_stands_at(chars, b),
    ensures
        stands_at(chars, a, ';') ==> param_at(chars, a) == worth(chars, a + 1, b) && param_end(
            chars,
            a,
        ) == b,
        !stands_at(chars, a, ';') ==> param_at(chars, a) == 0 && param_end(chars, a) == a,
{
    if stands_at(chars, a, ';') {
        law_number_takes_all_digits(chars, a + 1, b);
    }
}

/// Whether number `k` stands behind the one before it and a `;`.
pub open spec fn number_follows(chars: Seq<char>, ends: Seq<int>, k: int) -> bool {
    stands_at(chars, ends[k - 1], ';') && digits_between(chars, ends[k - 1] + 1, ends[k])
}

/// Whether numbers stand at `i`, up to `most` of them, with a `;` between any
/// two: the first begins at `i`, and `ends` says where each of them ends. A
/// number may have no digits.
pub open spec fn numbers_at(chars: Seq<char>, i: int, ends: Seq<int>, most: nat) -> bool {
    &&& 1 <= ends.len() <= most
    &&& digits_between(chars, i, ends[0])
    &&& forall|k: int| 0 < k < ends.len() ==> #[trigger] number_follows(chars, ends, k)
    &&& !digit_stands_at(chars, ends.last())
    &&& ends.len() < most ==> !stands_at(chars, ends.last(), ';')
}

/// What number `k` of those at `i` is worth, or zero where there are fewer.
pub open spec fn number_worth(chars: Seq<char>, i: int, ends: Seq<int>, k: int) -> usize {
    if k >= ends.len() {
        0
    } else if k <= 0 {
        worth(chars, i, ends[0])
    } else {
        worth(chars, ends[k - 1] + 1, ends[k])
    }
}

/// Wherever one looks, some numbers stand there.
pub proof fn law_numbers_stand_everywhere(chars: Seq<char>, i: int, most: nat) -> (ends: Seq<int>)
    requires
        0 <= i,
        1 <= most,
    ensures
        numbers_at(chars, i, ends, most),
    decreases most,
{
    let end = lemma_digits_found(chars, i);
    if most == 1 || !stands_at(chars, end, ';') {
        seq![end]
    } else {
        let later = law_numbers_stand_everywhere(chars, end + 1, (most - 1) as nat);
        let ends = seq![end] + later;
        assert forall|k: int| 0 < k < ends.len() implies #[trigger] number_follows(
            chars,
            ends,
            k,
        ) by {
            if k > 1 {
                assert(number_follows(chars, later, k - 1));
                assert(ends[k] == later[k - 1]);
                assert(ends[k - 1] == later[k - 2]);
            }
        }
        assert(ends.last() == later.last());
        ends
    }
}

/// Some digits, or none, stand at each index.
proof fn lemma_digits_found(chars: Seq<char>, i: int) -> (end: int)
    requires
        0 <= i,
    ensures
        digits_between(chars, i, end),
        !digit_stands_at(chars, end),
    decreases chars.len() - i,
{
    if digit_stands_at(chars, i) {
        let end = lemma_digits_found(chars, i + 1);
        end
    } else {
        i
    }
}

/// The number `k` of those that stand at `i` is read as what it is worth.
proof fn lemma_number_read(chars: Seq<char>, i: int, ends: Seq<int>, most: nat, k: int)
    requires
        numbers_at(chars, i, ends, most),
        0 <= k < most,
    ensures
        k == 0 ==> digits_end(chars, i) == ends[0] && number_at(chars, i) == number_worth(
            chars,
            i,
            ends,
            0,
        ),
        0 < k < ends.len() ==> separator_at(chars, ends[k - 1]) && digits_end(
            chars,
            ends[k - 1] + 1,
        ) == ends[k] && number_at(chars, ends[k - 1] + 1) == number_worth(chars, i, ends, k),
        0 < k < ends.len() ==> param_end(chars, ends[k - 1]) == ends[k] && param_at(
            chars,
            ends[k - 1],
        ) == number_worth(chars, i, ends, k),
        k >= ends.len() ==> !separator_at(chars, ends.last()) && param_end(chars, ends.last())
            == ends.last() && param_at(chars, ends.last()) == 0,
{
    if k < ends.len() {
        if k < ends.len() - 1 {
            assert(number_follows(chars, ends, k + 1));
            assert(!digit_stands_at(chars, ends[k]));
        }
        if k == 0 {
            law_number_takes_all_digits(chars, i, ends[0]);
        } else {
            assert(number_follows(chars, ends, k));
            law_number_takes_all_digits(chars, ends[k - 1] + 1, ends[k]);
        }
    }
}

/// One number behind a `#` selects the register of that number. Two to five of
/// them define it: they are the register, the color space and its three
/// components, in this order, those that are missing being zero.
pub proof fn law_color_command_is_read(chars: Seq<char>, i: int, ends: Seq<int>)
    requires
        numbers_at(chars, i, ends, 5),
    ensures
        color_command(chars, i).1 == ends.last(),
        ends.len() == 1 ==> color_command(chars, i).0 == (Command::Select {
            register: number_worth(chars, i, ends, 0),
        }),
        ends.len() > 1 ==> color_command(chars, i).0 == (Command::Define {
            register: number_worth(chars, i, ends, 0),
            space: number_worth(chars, i, ends, 1),
            x: number_worth(chars, i, ends, 2),
            y: number_worth(chars, i, ends, 3),
            z: number_worth(chars, i, ends, 4),
        }),
{
    lemma_number_read(chars, i, ends, 5, 0);
    lemma_number_read(chars, i, ends, 5, 1);
    lemma_number_read(chars, i, ends, 5, 2);
    lemma_number_read(chars, i, ends, 5, 3);
    lemma_number_read(chars, i, ends, 5, 4);
}

/// Of the four numbers behind a `"` the third is the width and the fourth the
/// height, each zero where it is missing.
pub proof fn law_raster_command_is_read(chars: Seq<char>, i: int, ends: Seq<int>)
    requires
        numbers_at(chars, i, ends, 4),
    ensures
        raster_command(chars, i) == (
            Command::Raster {
                width: number_worth(chars, i, ends, 2),
                height: number_worth(chars, i, ends, 3),
            },
            ends.last(),
        ),
{
    lemma_number_read(chars, i, ends, 4, 0);
    lemma_number_read(chars, i, ends, 4, 1);
    lemma_number_read(chars, i, ends, 4, 2);
    lemma_number_read(chars, i, ends, 4, 3);
}

/// The number behind a `!` repeats the character behind it, at least once, if
/// that is one of the 64 from `?` to `~`, whose distance from `?` is its bits.
/// Any other character is left alone.
pub proof fn law_repeat_command_is_read(chars: Seq<char>, i: int, end: int)
    requires
        digits_between(chars, i, end),
        !digit_stands_at(chars, end),
    ensures
        ({
            let (command, next) = repeat_command(chars, i);
            if 0 <= end < chars.len() && 63 <= chars[end] as int <= 126 {
                &&& next == end + 1
                &&& command matches Command::Paint { bits, count } && bits == chars[end] as int - 63
                    && count == if worth(chars, i, end) == 0 {
                    1
                } else {
                    worth(chars, i, end)
                }
            } else {
                next == end && command is Skip
            }
        }),
{
    law_number_takes_all_digits(chars, i, end);
}

/// The first character of a command says which one it is. Characters that begin
/// no command are passed over one by one.
pub proof fn law_first_character_tells(chars: Seq<char>, i: int)
    requires
        0 <= i < chars.len(),
    ensures
        chars[i] == '#' ==> command_at(chars, i) == color_command(chars, i + 1),
        chars[i] == '"' ==> command_at(chars, i) == raster_command(chars, i + 1),
        chars[i] == '!' ==> command_at(chars, i) == repeat_command(chars, i + 1),
        chars[i] == '$' ==> command_at(chars, i) == (Command::Return, i + 1),
        chars[i] == '-' ==> command_at(chars, i) == (Command::NewLine, i + 1),
        63 <= chars[i] as int <= 126 ==> command_at(chars, i).1 == i + 1 && (command_at(
            chars,
            i,
        ).0 matches Command::Paint { bits, count } && bits == chars[i] as int - 63 && count == 1),
        chars[i] != '#' && chars[i] != '"' && chars[i] != '!' && chars[i] != '$' && chars[i] != '-'
            && !(63 <= chars[i] as int <= 126) ==> command_at(chars, i) == (Command::Skip, i + 1),
{
}

/// A stream is read command by command, each from where the one before it ends,
/// until no character is left.
pub proof fn law_commands_follow_each_other(chars: Seq<char>, i: int)
    requires
        0 <= i <= chars.len(),
    ensures
        commands(chars) == commands_from(chars, 0),
        i == chars.len() ==> commands_from(chars, i).len() == 0,
        i < chars.len() ==> {
            &&& i < command_at(chars, i).1 <= chars.len()
            &&& commands_from(chars, i) == seq![command_at(chars, i).0] + commands_from(
                chars,
                command_at(chars, i).1,
            )
        },
{
    if i < chars.len() {
        lemma_command_end(chars, i);
    }
}

/// The data of a body is what stands behind the first `q`, and there is none
/// just if there is no `q`.
pub proof fn law_data_stands_behind_first_introducer(body: Seq<char>, k: int)
    ensures
        data(body) is None <==> !body.contains('q'),
        0 <= k < body.len() && body[k] == 'q' && !body.take(k).contains('q') ==> data(body) == Some(
            body.skip(k + 1),
        ),
    decreases body.len(),
{
    if body.len() > 0 {
        let rest = body.drop_first();
        law_data_stands_behind_first_introducer(rest, k - 1);
        if body[0] == 'q' {
            assert(body.contains('q'));
            if 0 < k < body.len() {
                assert(body.take(k)[0] == 'q');
                assert(body.take(k).contains('q'));
            }
            assert(body.drop_first() =~= body.skip(1));
        } else {
            if body.contains('q') {
                let j = choose|j: int| 0 <= j < body.len() && body[j] == 'q';
                assert(rest[j - 1] == 'q');
            }
            if rest.contains('q') {
                let j = choose|j: int| 0 <= j < rest.len() && rest[j] == 'q';
                assert(body[j + 1] == 'q');
            }
            if 0 <= k < body.len() && body[k] == 'q' && !body.take(k).contains('q') {
                assert(rest[k - 1] == 'q');
                let before = rest.take(k - 1);
                if before.contains('q') {
                    let j = choose|j: int| 0 <= j < before.len() && before[j] == 'q';
                    assert(body.take(k)[j + 1] == 'q');
                }
                assert(rest.skip(k) =~= body.skip(k + 1));
            }
        }
    }
}

} // verus!
