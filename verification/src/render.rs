//! Rendering of a queue as text: the member list with a fixed separator,
//! and the decimal form of the group size.

use vstd::prelude::*;
use vstd::string::StringExecFns;

verus! {

/// The member names joined with a comma and a space between entries and no
/// trailing separator; an empty line renders as the empty string.
pub open spec fn joined(ms: Seq<Seq<char>>) -> Seq<char>
    decreases ms.len(),
{
    if ms.len() == 0 {
        Seq::empty()
    } else if ms.len() == 1 {
        ms[0]
    } else {
        joined(ms.drop_last()) + ", "@ + ms.last()
    }
}

/// The decimal digit character for `d`.
pub open spec fn digit_char(d: int) -> char
    recommends
        0 <= d < 10,
{
    if d == 0 {
        '0'
    } else if d == 1 {
        '1'
    } else if d == 2 {
        '2'
    } else if d == 3 {
        '3'
    } else if d == 4 {
        '4'
    } else if d == 5 {
        '5'
    } else if d == 6 {
        '6'
    } else if d == 7 {
        '7'
    } else if d == 8 {
        '8'
    } else {
        '9'
    }
}

/// The decimal rendering of `n`, most significant digit first, without
/// leading zeros.
pub open spec fn dec_str(n: int) -> Seq<char>
    recommends
        n >= 0,
    decreases n,
{
    if n < 10 {
        seq![digit_char(n)]
    } else {
        dec_str(n / 10).push(digit_char(n % 10))
    }
}

/// One line naming the game, the group size and the waiting players.
pub open spec fn display_line(game: Seq<char>, players: int, ms: Seq<Seq<char>>) -> Seq<char> {
    game + " ("@ + dec_str(players) + " player(s) each round): "@ + joined(ms)
}

/// The one-character string for a decimal digit.
fn digit_str(d: u8) -> (r: &'static str)
    requires
        d < 10,
    ensures
        r@ == seq![digit_char(d as int)],
{
    let r: &'static str = if d == 0 {
        "0"
    } else if d == 1 {
        "1"
    } else if d == 2 {
        "2"
    } else if d == 3 {
        "3"
    } else if d == 4 {
        "4"
    } else if d == 5 {
        "5"
    } else if d == 6 {
        "6"
    } else if d == 7 {
        "7"
    } else if d == 8 {
        "8"
    } else {
        "9"
    };
    proof {
        reveal_strlit("0");
        reveal_strlit("1");
        reveal_strlit("2");
        reveal_strlit("3");
        reveal_strlit("4");
        reveal_strlit("5");
        reveal_strlit("6");
        reveal_strlit("7");
        reveal_strlit("8");
        reveal_strlit("9");
        assert(r@ =~= seq![digit_char(d as int)]);
    }
    r
}

/// Appends the decimal rendering of `n` to `s`.
pub(crate) fn append_decimal(s: &mut String, n: u8)
    ensures
        final(s)@ == old(s)@ + dec_str(n as int),
{
    proof {
        reveal_with_fuel(dec_str, 4);
    }
    if n >= 100 {
        proof {
            vstd::arithmetic::div_mod::lemma_div_denominator(n as int, 10, 10);
            assert(((n as int) / 10) % 10 == ((n / 10) % 10) as int);
        }
        s.append(digit_str(n / 100));
        s.append(digit_str((n / 10) % 10));
        s.append(digit_str(n % 10));
        proof {
            assert(dec_str(n as int) =~= seq![
                digit_char((n / 100) as int),
                digit_char(((n / 10) % 10) as int),
                digit_char((n % 10) as int),
            ]);
            assert(s@ =~= old(s)@ + dec_str(n as int));
        }
    } else if n >= 10 {
        s.append(digit_str(n / 10));
        s.append(digit_str(n % 10));
        proof {
            assert(dec_str(n as int) =~= seq![
                digit_char((n / 10) as int),
                digit_char((n % 10) as int),
            ]);
            assert(s@ =~= old(s)@ + dec_str(n as int));
        }
    } else {
        s.append(digit_str(n));
        proof {
            assert(s@ =~= old(s)@ + dec_str(n as int));
        }
    }
}

} // verus!
