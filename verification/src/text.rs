//! Writing numbers and lists of numbers as text.

use vstd::prelude::*;
use vstd::string::StringExecFns;

verus! {

/// The character of a decimal digit.
pub open spec fn digit(d: int) -> char
    recommends
        0 <= d < 10,
{
    if d == 0 {
        '0'
    } else if d == 1 {
        '1'
    } else if d == 2 {
        '2'
    } else if d == 3 {
        '3'
    } else if d == 4 {
        '4'
    } else if d == 5 {
        '5'
    } else if d == 6 {
        '6'
    } else if d == 7 {
        '7'
    } else if d == 8 {
        '8'
    } else {
        '9'
    }
}

/// A number in decimal notation, without leading zeros.
pub open spec fn decimal(n: nat) -> Seq<char>
    decreases n,
{
    if n < 10 {
        seq![digit(n as int)]
    } else {
        decimal(n / 10).push(digit((n % 10) as int))
    }
}

/// Numbers in decimal notation, with a comma and a blank between one and
/// the next.
pub open spec fn listed(numbers: Seq<u8>) -> Seq<char>
    decreases numbers.len(),
{
    if numbers.len() == 0 {
        Seq::empty()
    } else if numbers.len() == 1 {
        decimal(numbers[0] as nat)
    } else {
        listed(numbers.drop_last()) + seq![',', ' '] + decimal(numbers.last() as nat)
    }
}

/// Writes a decimal digit at the end of a text.
fn push_digit(text: &mut String, d: u8)
    requires
        d < 10,
    ensures
        final(text)@ == old(text)@.push(digit(d as int)),
{
    proof {
        reveal_strlit("0");
        reveal_strlit("1");
        reveal_strlit("2");
        reveal_strlit("3");
        reveal_strlit("4");
        reveal_strlit("5");
        reveal_strlit("6");
        reveal_strlit("7");
        reveal_strlit("8");
        reveal_strlit("9");
    }
    let ghost before = text@;
    if d == 0 {
        text.append("0");
    } else if d == 1 {
        text.append("1");
    } else if d == 2 {
        text.append("2");
    } else if d == 3 {
        text.append("3");
    } else if d == 4 {
        text.append("4");
    } else if d == 5 {
        text.append("5");
    } else if d == 6 {
        text.append("6");
    } else if d == 7 {
        text.append("7");
    } else if d == 8 {
        text.append("8");
    } else {
        text.append("9");
    }
    assert(text@ =~= before.push(digit(d as int)));
}

/// Writes a number in decimal notation at the end of a text.
pub fn push_decimal(text: &mut String, n: u8)
    ensures
        final(text)@ == old(text)@ + decimal(n as nat),
{
    let ghost before = text@;
    if n >= 100 {
        push_digit(text, n / 100);
        push_digit(text, (n / 10) % 10);
        push_digit(text, n % 10);
        proof {
            let hundreds = (n / 100) as nat;
            let tens = (n / 10) as nat;
            assert(tens / 10 == hundreds);
            assert(decimal(hundreds) =~= seq![digit(hundreds as int)]);
            assert(decimal(tens) =~= decimal(hundreds).push(digit((tens % 10) as int)));
            assert(decimal(n as nat) =~= decimal(tens).push(digit((n % 10) as int)));
            assert(text@ =~= before + decimal(n as nat));
        }
    } else if n >= 10 {
        push_digit(text, n / 10);
        push_digit(text, n % 10);
        proof {
            let tens = (n / 10) as nat;
            assert(decimal(tens) =~= seq![digit(tens as int)]);
            assert(decimal(n as nat) =~= decimal(tens).push(digit((n % 10) as int)));
            assert(text@ =~= before + decimal(n as nat));
        }
    } else {
        push_digit(text, n);
        proof {
            assert(text@ =~= before + decimal(n as nat));
        }
    }
}

/// Writes a list of numbers at the end of a text, with a comma and a blank
/// between one and the next.
pub fn push_listed(text: &mut String, numbers: &Vec<u8>)
    ensures
        final(text)@ == old(text)@ + listed(numbers@),
{
    let ghost before = text@;
    let mut i: usize = 0;
    proof {
        assert(listed(numbers@.take(0)) =~= Seq::<char>::empty());
        assert(text@ =~= before + listed(numbers@.take(0)));
    }
    while i < numbers.len()
        invariant
            i <= numbers.len(),
            text@ == before + listed(numbers@.take(i as int)),
        decreases numbers.len() - i,
    {
        let ghost so_far = text@;
        if i > 0 {
            proof {
                reveal_strlit(", ");
            }
            text.append(", ");
        }
        push_decimal(text, numbers[i]);
        proof {
            let now = numbers@.take(i + 1);
            assert(now.drop_last() =~= numbers@.take(i as int));
            assert(now.last() == numbers@[i as int]);
            if i > 0 {
                assert(", "@ =~= seq![',', ' ']);
                assert(text@ =~= before + listed(now));
            } else {
                assert(listed(numbers@.take(0)) =~= Seq::<char>::empty());
                assert(text@ =~= before + listed(now));
            }
        }
        i += 1;
    }
    proof {
        assert(numbers@.take(i as int) =~= numbers@);
    }
}

} // verus!
