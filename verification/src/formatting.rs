use vstd::prelude::*;
use vstd::string::*;

verus! {

/// The character of a decimal digit.
pub open spec fn digit_char(d: nat) -> char {
    if d == 0 {
        '0'
    } else if d == 1 {
        '1'
    } else if d == 2 {
        '2'
    } else if d == 3 {
        '3'
    } else if d == 4 {
        '4'
    } else if d == 5 {
        '5'
    } else if d == 6 {
        '6'
    } else if d == 7 {
        '7'
    } else if d == 8 {
        '8'
    } else {
        '9'
    }
}

/// The decimal digits of `n`, most significant first, without leading zeros.
pub open spec fn decimal(n: nat) -> Seq<char>
    decreases n,
{
    if n < 10 {
        seq![digit_char(n)]
    } else {
        decimal(n / 10).push(digit_char(n % 10))
    }
}

/// The text for a number of blocks: the number itself, and above 64 also the number of stacks
/// of 64 and the rest, as in `100 = 1s36`.
pub open spec fn block_count_text(n: nat) -> Seq<char> {
    if n <= 64 {
        decimal(n)
    } else {
        decimal(n) + " = "@ + decimal(n / 64) + "s"@ + decimal(n % 64)
    }
}

/// The text for the block diameters: one number when both are equal, else both with their axis.
pub open spec fn block_diameter_text(d0: nat, d1: nat) -> Seq<char> {
    if d0 == d1 {
        "block diameter: "@ + decimal(d0)
    } else {
        "block diameters: "@ + decimal(d0) + "x by "@ + decimal(d1) + "y"@
    }
}

/// Appends the digit `d` to `s`.
fn push_digit(s: &mut String, d: u64)
    requires
        d < 10,
    ensures
        final(s)@ == old(s)@.push(digit_char(d as nat)),
{
    if d == 0 {
        proof {
            reveal_strlit("0");
        }
        s.append("0");
    } else if d == 1 {
        proof {
            reveal_strlit("1");
        }
        s.append("1");
    } else if d == 2 {
        proof {
            reveal_strlit("2");
        }
        s.append("2");
    } else if d == 3 {
        proof {
            reveal_strlit("3");
        }
        s.append("3");
    } else if d == 4 {
        proof {
            reveal_strlit("4");
        }
        s.append("4");
    } else if d == 5 {
        proof {
            reveal_strlit("5");
        }
        s.append("5");
    } else if d == 6 {
        proof {
            reveal_strlit("6");
        }
        s.append("6");
    } else if d == 7 {
        proof {
            reveal_strlit("7");
        }
        s.append("7");
    } else if d == 8 {
        proof {
            reveal_strlit("8");
        }
        s.append("8");
    } else {
        proof {
            reveal_strlit("9");
        }
        s.append("9");
    }
}

/// Appends the decimal digits of `n` to `s`.
pub(crate) fn push_decimal(s: &mut String, n: u64)
    ensures
        final(s)@ == old(s)@ + decimal(n as nat),
    decreases n,
{
    if n < 10 {
        push_digit(s, n);
        assert(old(s)@.push(digit_char(n as nat)) =~= old(s)@ + decimal(n as nat));
    } else {
        push_decimal(s, n / 10);
        push_digit(s, n % 10);
        assert((old(s)@ + decimal((n / 10) as nat)).push(digit_char((n % 10) as nat)) =~= old(s)@
            + decimal(n as nat));
    }
}

/// The number of blocks as shown to the user, with the stacks of 64 above 64 blocks.
pub fn format_block_count(nr_blocks: u64) -> (s: String)
    ensures
        s@ == block_count_text(nr_blocks as nat),
{
    let mut s = String::new();
    push_decimal(&mut s, nr_blocks);
    if nr_blocks > 64 {
        s.append(" = ");
        push_decimal(&mut s, nr_blocks / 64);
        s.append("s");
        push_decimal(&mut s, nr_blocks % 64);
    }
    assert(s@ =~= block_count_text(nr_blocks as nat));
    s
}

/// The block diameters as shown to the user.
pub fn format_block_diameter(diameters: [u64; 2]) -> (s: String)
    ensures
        s@ == block_diameter_text(diameters[0] as nat, diameters[1] as nat),
{
    if diameters[0] == diameters[1] {
        let mut s = String::from_str("block diameter: ");
        push_decimal(&mut s, diameters[0]);
        s
    } else {
        let mut s = String::from_str("block diameters: ");
        push_decimal(&mut s, diameters[0]);
        s.append("x by ");
        push_decimal(&mut s, diameters[1]);
        s.append("y");
        assert(s@ =~= block_diameter_text(diameters[0] as nat, diameters[1] as nat));
        s
    }
}

} // verus!
