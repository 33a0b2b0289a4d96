//! Numbers in words, for messages.

use vstd::prelude::*;

verus! {

/// The decimal digit `d`.
pub open spec fn digit(d: nat) -> char {
    (('0' as int) + d) as char
}

/// `n` in decimal digits.
pub open spec fn decimal(n: nat) -> Seq<char>
    decreases n,
{
    if n < 10 {
        seq![digit(n)]
    } else {
        decimal(n / 10).push(digit(n % 10))
    }
}

fn digit_text(d: u64) -> (r: &'static str)
    requires
        d < 10,
    ensures
        r@ == seq![digit(d as nat)],
{
    proof {
        reveal_strlit("0");
        reveal_strlit("1");
        reveal_strlit("2");
        reveal_strlit("3");
        reveal_strlit("4");
        reveal_strlit("5");
        reveal_strlit("6");
        reveal_strlit("7");
        reveal_strlit("8");
        reveal_strlit("9");
        assert("0"@ =~= seq![digit(0)]);
        assert("1"@ =~= seq![digit(1)]);
        assert("2"@ =~= seq![digit(2)]);
        assert("3"@ =~= seq![digit(3)]);
        assert("4"@ =~= seq![digit(4)]);
        assert("5"@ =~= seq![digit(5)]);
        assert("6"@ =~= seq![digit(6)]);
        assert("7"@ =~= seq![digit(7)]);
        assert("8"@ =~= seq![digit(8)]);
        assert("9"@ =~= seq![digit(9)]);
    }
    if d == 0 {
        "0"
    } else if d == 1 {
        "1"
    } else if d == 2 {
        "2"
    } else if d == 3 {
        "3"
    } else if d == 4 {
        "4"
    } else if d == 5 {
        "5"
    } else if d == 6 {
        "6"
    } else if d == 7 {
        "7"
    } else if d == 8 {
        "8"
    } else {
        "9"
    }
}

/// Appends `n` in decimal digits.
pub(crate) fn put_decimal(out: &mut String, n: u64)
    ensures
        final(out)@ == old(out)@ + decimal(n as nat),
    decreases n,
{
    let ghost before = out@;
    if n < 10 {
        out.append(digit_text(n));
    } else {
        put_decimal(out, n / 10);
        out.append(digit_text(n % 10));
        proof {
            assert(out@ =~= before + decimal(n as nat));
        }
    }
}

/// The number that some digits spell.
pub open spec fn spelled(digits: Seq<char>) -> int
    decreases digits.len(),
{
    if digits.len() == 0 {
        0
    } else {
        10 * spelled(digits.drop_last()) + (digits.last() as int - '0' as int)
    }
}

/// A number's digits spell it, each a digit and the first no zero unless it is
/// the only one.
pub proof fn digits_spell_their_number(n: nat)
    ensures
        spelled(decimal(n)) == n,
        decimal(n).len() > 0,
        forall|i: int| 0 <= i < decimal(n).len() ==> '0' <= #[trigger] decimal(n)[i] <= '9',
        n >= 10 ==> decimal(n)[0] != '0',
    decreases n,
{
    reveal_with_fuel(spelled, 2);
    if n >= 10 {
        digits_spell_their_number(n / 10);
        let init = decimal(n / 10);
        let all = decimal(n);
        assert(all.drop_last() =~= init);
        assert forall|i: int| 0 <= i < all.len() implies '0' <= #[trigger] all[i] <= '9' by {
            if i < init.len() {
                assert(all[i] == init[i]);
            }
        }
        if n / 10 < 10 {
            assert(init[0] == digit(n / 10));
        }
        assert(all[0] == init[0]);
    } else {
        assert(decimal(n).drop_last() =~= Seq::<char>::empty());
    }
}

} // verus!
